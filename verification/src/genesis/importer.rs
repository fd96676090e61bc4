//! The snapshot importer: one worker per table, started in a fixed order and
//! joined at a single point.

use crate::combined_database::CombinedDatabase;
use crate::database::Column;
use crate::genesis::import_task::{reached, ImportError, ImportWorker, TableEntry, WorkerState, WorkerStatus};
use crate::genesis::import_task::{lemma_step_keeps_reached, step_model};
use crate::genesis::progress::{MultipleProgressReporter, ProgressCounter};
use crate::genesis::table::{lemma_columns_disjoint, lemma_ordinal_is_place, lemma_place_is_ordinal};
use crate::genesis::table::{StorageDomain, TableKind, TABLE_COUNT};
use crate::genesis::task_manager::{first_failure, first_failure_from, TaskManager};
use fuel_core_services::StateWatcher;
use fuel_core_types::blockchain::primitives::DaBlockHeight;
use fuel_core_types::fuel_types::BlockHeight;
use vstd::prelude::*;


verus! {

/// The height of a block of the chain, as `fuel_core_types::fuel_types::BlockHeight`
/// holds it. The library carries such a value and never looks into it.
#[verifier::external_type_specification]
#[verifier::external_body]
pub struct ExBlockHeight(BlockHeight);

/// The height of a block of the data availability layer, as
/// `fuel_core_types::blockchain::primitives::DaBlockHeight` holds it. The
/// library carries such a value and never looks into it.
#[verifier::external_type_specification]
#[verifier::external_body]
pub struct ExDaBlockHeight(DaBlockHeight);

/// What every entry of a snapshot is imported with: the height of the genesis
/// block that is being built and the height of the data availability layer at
/// that block.
#[derive(Debug, Clone, Copy)]
pub struct Handler {
    pub block_height: BlockHeight,
    pub da_block_height: DaBlockHeight,
}

impl Handler {
    /// The import context for a genesis block at `block_height`.
    pub fn new(block_height: BlockHeight, da_block_height: DaBlockHeight) -> (handler: Handler)
        ensures
            handler.block_height == block_height,
            handler.da_block_height == da_block_height,
    {
        Handler { block_height, da_block_height }
    }
}

/// What the importer needs of the genesis block that is being built.
#[derive(Debug, Clone, Copy)]
pub struct GenesisBlock {
    pub height: BlockHeight,
    pub da_height: DaBlockHeight,
}

/// The groups of one table in order. A group that cannot be decoded is `None`.
pub type Groups = Vec<Option<Vec<TableEntry>>>;

/// A snapshot: for every table that it holds, the groups of the table.
///
/// The groups of a table are handed out once. After that the snapshot holds
/// the table no more.
pub struct SnapshotReader {
    tables: Vec<Option<Groups>>,
}

impl SnapshotReader {
    /// The tables of the snapshot in the order in which workers are started.
    /// A table that the snapshot does not hold is `None`, and so is every
    /// table beyond the end.
    pub closed spec fn tables(self) -> Seq<Option<Groups>> {
        self.tables@
    }

    /// The groups of `table`, if the snapshot holds the table.
    pub open spec fn groups_of(self, table: TableKind) -> Option<Groups> {
        if table.ordinal() < self.tables().len() {
            self.tables()[table.ordinal()]
        } else {
            None
        }
    }

    /// A snapshot that holds no table.
    pub fn new() -> (reader: SnapshotReader)
        ensures
            forall|table: TableKind| #[trigger] reader.groups_of(table) is None,
    {
        SnapshotReader { tables: Vec::new() }
    }

    /// Gives the snapshot the groups of `table`, in place of any that it held.
    pub fn insert(&mut self, table: TableKind, groups: Groups)
        ensures
            final(self).groups_of(table) == Some(groups),
            forall|other: TableKind| other != table ==> #[trigger] final(self).groups_of(other) == old(self).groups_of(other),
    {
        let index = table.index();
        while self.tables.len() <= index
            invariant
                index == table.ordinal(),
                self.tables@.len() >= old(self).tables@.len(),
                forall|i: int| 0 <= i < old(self).tables@.len() ==> self.tables@[i] == old(self).tables@[i],
                forall|i: int| old(self).tables@.len() <= i < self.tables@.len() ==> self.tables@[i] is None,
            decreases index + 1 - self.tables@.len(),
        {
            self.tables.push(None);
        }
        self.tables[index] = Some(groups);
        proof {
            assert forall|other: TableKind| other != table implies #[trigger] self.groups_of(other) == old(self).groups_of(other) by {
                lemma_ordinal_is_place(other);
                lemma_ordinal_is_place(table);
            }
        }
    }

    /// Hands out the groups of `table`. The snapshot holds the table no more
    /// afterwards. A table that the snapshot does not hold is an error.
    pub fn read(&mut self, table: TableKind) -> (groups: Result<Groups, ImportError>)
        ensures
            old(self).groups_of(table) is Some ==> groups == Ok::<Groups, ImportError>(
                old(self).groups_of(table)->0,
            ) && final(self).groups_of(table) is None,
            old(self).groups_of(table) is None ==> groups == Err::<Groups, ImportError>(
                ImportError::MissingTable { table },
            ) && final(self).tables() == old(self).tables(),
            forall|other: TableKind| other != table ==> #[trigger] final(self).groups_of(other) == old(self).groups_of(other),
    {
        let index = table.index();
        if index >= self.tables.len() {
            return Err(ImportError::MissingTable { table });
        }
        if self.tables[index].is_none() {
            return Err(ImportError::MissingTable { table });
        }
        let mut taken: Option<Groups> = None;
        core::mem::swap(&mut self.tables[index], &mut taken);
        proof {
            assert forall|other: TableKind| other != table implies #[trigger] self.groups_of(other) == old(self).groups_of(other) by {
                lemma_ordinal_is_place(other);
                lemma_ordinal_is_place(table);
            }
        }
        match taken {
            Some(groups) => Ok(groups),
            None => Err(ImportError::MissingTable { table }),
        }
    }
}

/// What a job reports to the task manager for a worker in `status`: nothing
/// while it runs, its failure if it failed, success otherwise. A stop on the
/// cancellation signal is a success.
pub open spec fn job_result(status: WorkerStatus) -> Option<Result<(), ImportError>> {
    match status {
        WorkerStatus::Running => None,
        WorkerStatus::Failed(error) => Some(Err(error)),
        _ => Some(Ok(())),
    }
}

/// Lets the worker at `at` take one step.
fn step_worker(
    workers: &mut Vec<ImportWorker>,
    at: usize,
    cancelled: bool,
    db: &mut CombinedDatabase,
    progress: &mut MultipleProgressReporter,
) -> (status: WorkerStatus)
    requires
        at < old(workers)@.len(),
    ensures
        final(workers)@.len() == old(workers)@.len(),
        forall|i: int| 0 <= i < old(workers)@.len() && i != at ==> #[trigger] final(workers)@[i] == old(workers)@[i],
        final(workers)@[at as int].table() == old(workers)@[at as int].table(),
        final(workers)@[at as int].handler() == old(workers)@[at as int].handler(),
        final(workers)@[at as int].groups() == old(workers)@[at as int].groups(),
        final(workers)@[at as int].state(*final(db), *final(progress)) == step_model(
            old(workers)@[at as int].table(),
            old(workers)@[at as int].groups(),
            old(workers)@[at as int].state(*old(db), *old(progress)),
            cancelled,
        ),
        status == final(workers)@[at as int].status(),
        forall|column: Column|
            column != old(workers)@[at as int].table().spec_column() ==> #[trigger] final(db).on_chain.table(
                column,
            ) == old(db).on_chain.table(column),
        forall|column: Column|
            column != old(workers)@[at as int].table().spec_column() ==> #[trigger] final(db).off_chain.table(
                column,
            ) == old(db).off_chain.table(column),
        old(workers)@[at as int].table().spec_domain() == StorageDomain::OnChain ==> final(db).off_chain == old(db).off_chain,
        old(workers)@[at as int].table().spec_domain() == StorageDomain::OffChain ==> final(db).on_chain == old(db).on_chain,
        final(progress).counters() == old(progress).counters().update(
            old(workers)@[at as int].table().ordinal(),
            final(progress).counter(old(workers)@[at as int].table()),
        ),
        final(progress).counters().len() == TABLE_COUNT,
{
    workers[at].step(cancelled, db, progress)
}

/// Whether `workers` are the workers `before` at a later time: the same
/// tables with the same groups and the same import context, in the same order.
pub open spec fn same_tasks(workers: Seq<ImportWorker>, before: Seq<ImportWorker>) -> bool {
    &&& workers.len() == before.len()
    &&& forall|i: int|
        0 <= i < workers.len() ==> (#[trigger] workers[i]).table() == before[i].table() && workers[i].groups()
            == before[i].groups() && workers[i].handler() == before[i].handler()
}

/// Whether no two of `workers` import the same table.
pub open spec fn distinct_tables(workers: Seq<ImportWorker>) -> bool {
    forall|i: int, j: int|
        0 <= i < workers.len() && 0 <= j < workers.len() && i != j ==> (#[trigger] workers[i]).table() != (
        #[trigger] workers[j]).table()
}

/// Whether every worker has imported, in order and with nothing else, a
/// prefix of its groups into the column that `origin` held, and has counted
/// each imported group on top of what `counted` held.
pub open spec fn workers_reached(
    workers: Seq<ImportWorker>,
    origin: CombinedDatabase,
    counted: MultipleProgressReporter,
    db: CombinedDatabase,
    progress: MultipleProgressReporter,
) -> bool {
    forall|i: int|
        0 <= i < workers.len() ==> reached(
            (#[trigger] workers[i]).table(),
            workers[i].groups(),
            origin.content(workers[i].table()),
            counted.counter(workers[i].table()),
            workers[i].state(db, progress),
        )
}

/// Whether the task manager knows of every worker what the worker's status
/// says.
pub open spec fn jobs_match(workers: Seq<ImportWorker>, jobs: Seq<Option<Result<(), ImportError>>>) -> bool {
    &&& jobs.len() == workers.len()
    &&& forall|i: int| 0 <= i < workers.len() ==> #[trigger] jobs[i] == job_result(workers[i].status())
}

/// Whether at most one worker has failed, and no worker has imported more
/// than one group beyond the number that the failed worker had imported when
/// it failed.
pub open spec fn one_failure(workers: Seq<ImportWorker>) -> bool {
    forall|i: int, j: int|
        0 <= i < workers.len() && 0 <= j < workers.len() && (#[trigger] workers[i]).status() is Failed ==> (
        #[trigger] workers[j]).next() <= workers[i].next() + 1 && (workers[j].status() is Failed ==> i == j)
}

/// Whether none of `workers` imports `table`.
pub open spec fn untouched(workers: Seq<ImportWorker>, table: TableKind) -> bool {
    forall|i: int| 0 <= i < workers.len() ==> (#[trigger] workers[i]).table() != table
}

/// Whether none of `workers` writes to `column` of the store of `domain`.
pub open spec fn slot_untouched(workers: Seq<ImportWorker>, domain: StorageDomain, column: Column) -> bool {
    forall|i: int|
        0 <= i < workers.len() ==> !((#[trigger] workers[i]).table().spec_domain() == domain
            && workers[i].table().spec_column() == column)
}

/// Whether no worker is running.
pub open spec fn all_ended(workers: Seq<ImportWorker>) -> bool {
    forall|i: int| 0 <= i < workers.len() ==> (#[trigger] workers[i]).status() != WorkerStatus::Running
}

/// Whether every worker is still to take its first step.
pub open spec fn all_fresh(workers: Seq<ImportWorker>) -> bool {
    forall|i: int|
        0 <= i < workers.len() ==> (#[trigger] workers[i]).status() == WorkerStatus::Running && workers[i].next()
            == 0
}

/// The import of one snapshot: the workers of its tables, their progress and
/// the task manager that joins them.
pub struct SnapshotImporter {
    task_manager: TaskManager<()>,
    genesis_block: GenesisBlock,
    snapshot_reader: SnapshotReader,
    multi_progress_reporter: MultipleProgressReporter,
    workers: Vec<ImportWorker>,
    started: bool,
}

impl SnapshotImporter {
    /// The workers in the order in which they were spawned.
    pub closed spec fn workers(self) -> Seq<ImportWorker> {
        self.workers@
    }

    /// What the task manager knows of the workers, in the same order.
    pub closed spec fn jobs(self) -> Seq<Option<Result<(), ImportError>>> {
        self.task_manager.jobs()
    }

    /// Whether the import has set its cancellation signal.
    pub closed spec fn signalled(self) -> bool {
        self.task_manager.signalled()
    }

    /// The snapshot with the tables that no worker has taken yet.
    pub closed spec fn snapshot(self) -> SnapshotReader {
        self.snapshot_reader
    }

    /// The progress of all tables.
    pub closed spec fn reporter(self) -> MultipleProgressReporter {
        self.multi_progress_reporter
    }

    /// The genesis block that the snapshot is imported for.
    pub closed spec fn genesis(self) -> GenesisBlock {
        self.genesis_block
    }

    /// Whether the workers have been run.
    pub closed spec fn started(self) -> bool {
        self.started
    }

    /// What holds of an importer at all times: every worker has its job and
    /// its own table, whose groups the snapshot has handed out; before the
    /// run every worker is still to take its first step and the signal is not
    /// set; after the run no worker is running and the task manager knows how
    /// each of them ended.
    pub closed spec fn wf(self) -> bool {
        &&& self.task_manager.jobs().len() == self.workers@.len()
        &&& distinct_tables(self.workers@)
        &&& forall|i: int|
            0 <= i < self.workers@.len() ==> self.snapshot_reader.groups_of(
                (#[trigger] self.workers@[i]).table(),
            ) is None
        &&& !self.started ==> !self.task_manager.signalled() && all_fresh(self.workers@) && jobs_match(
            self.workers@,
            self.task_manager.jobs(),
        )
        &&& self.started ==> all_ended(self.workers@) && jobs_match(self.workers@, self.task_manager.jobs())
    }

    /// An importer of `snapshot_reader` for the genesis block `genesis_block`,
    /// without workers, that stops when `watcher` says that the node shuts
    /// down.
    pub fn new(genesis_block: GenesisBlock, snapshot_reader: SnapshotReader, watcher: StateWatcher) -> (importer:
        SnapshotImporter)
        ensures
            importer.wf(),
            importer.workers().len() == 0,
            importer.snapshot() == snapshot_reader,
            importer.genesis() == genesis_block,
            !importer.started(),
            forall|table: TableKind| #[trigger] importer.reporter().counter(table) is None,
    {
        SnapshotImporter {
            task_manager: TaskManager::new(watcher),
            genesis_block,
            snapshot_reader,
            multi_progress_reporter: MultipleProgressReporter::new(),
            workers: Vec::new(),
            started: false,
        }
    }

    /// The progress of all tables.
    pub fn progress(&self) -> (reporter: &MultipleProgressReporter)
        ensures
            *reporter == self.reporter(),
    {
        &self.multi_progress_reporter
    }

    /// The number of workers.
    pub fn worker_count(&self) -> (count: usize)
        ensures
            count == self.workers().len(),
    {
        self.workers.len()
    }

    /// Where the worker at `at` stands and how many groups it has imported.
    pub fn worker_status(&self, at: usize) -> (standing: Option<(TableKind, WorkerStatus, usize)>)
        ensures
            at >= self.workers().len() ==> standing is None,
            at < self.workers().len() ==> standing == Some(
                (
                    self.workers()[at as int].table(),
                    self.workers()[at as int].status(),
                    self.workers()[at as int].next() as usize,
                ),
            ),
    {
        if at < self.workers.len() {
            let worker = &self.workers[at];
            Some((worker.table_kind(), worker.current_status(), worker.processed_groups()))
        } else {
            None
        }
    }

    /// Prepares the worker of `table`: takes the groups of the table from the
    /// snapshot, registers their number with the progress reporter, and hands
    /// the worker, with the heights of the genesis block as its context, to
    /// the task manager.
    ///
    /// A table that the snapshot does not hold is an error, and so is a call
    /// after the workers have been run. Nothing changes then.
    pub fn spawn_worker(&mut self, table: TableKind) -> (result: Result<(), ImportError>)
        requires
            old(self).wf(),
        ensures
            final(self).wf(),
            final(self).started() == old(self).started(),
            final(self).genesis() == old(self).genesis(),
            final(self).signalled() == old(self).signalled(),
            final(self).reporter().counters().len() == TABLE_COUNT,
            old(self).reporter().counters().len() == TABLE_COUNT,
            old(self).started() ==> result == Err::<(), ImportError>(ImportError::AlreadyStarted),
            !old(self).started() && old(self).snapshot().groups_of(table) is None ==> result == Err::<
                (),
                ImportError,
            >(ImportError::MissingTable { table }),
            !old(self).started() && old(self).snapshot().groups_of(table) is Some ==> result == Ok::<
                (),
                ImportError,
            >(()),
            result is Err ==> final(self).workers() == old(self).workers() && final(self).jobs() == old(self).jobs() && final(self).reporter() == old(self).reporter() && final(self).snapshot().tables()
                == old(self).snapshot().tables(),
            result is Ok ==> {
                let worker = final(self).workers().last();
                let groups = old(self).snapshot().groups_of(table)->0;
                &&& final(self).workers().len() == old(self).workers().len() + 1
                &&& final(self).workers().drop_last() == old(self).workers()
                &&& worker.table() == table
                &&& worker.groups() == groups@
                &&& worker.handler().block_height == old(self).genesis().height
                &&& worker.handler().da_block_height == old(self).genesis().da_height
                &&& worker.next() == 0
                &&& worker.status() == WorkerStatus::Running
                &&& final(self).jobs() == old(self).jobs().push(None)
                &&& final(self).reporter().counters() == old(self).reporter().counters().update(
                    table.ordinal(),
                    Some(ProgressCounter { processed: 0, total: groups@.len() as usize }),
                )
                &&& final(self).snapshot().groups_of(table) is None
                &&& forall|other: TableKind|
                    other != table ==> #[trigger] final(self).snapshot().groups_of(other) == old(self).snapshot().groups_of(other)
            },
    {
        proof {
            self.multi_progress_reporter.lemma_one_counter_per_table();
        }
        if self.started {
            return Err(ImportError::AlreadyStarted);
        }
        let groups = match self.snapshot_reader.read(table) {
            Ok(groups) => groups,
            Err(error) => {
                return Err(error);
            },
        };
        let num_groups = groups.len();
        let handler = Handler::new(self.genesis_block.height, self.genesis_block.da_height);
        self.multi_progress_reporter.register(table, num_groups);
        self.task_manager.spawn();
        let worker = ImportWorker::new(table, handler, groups);
        self.workers.push(worker);
        proof {
            assert(self.workers@.drop_last() =~= old(self).workers@);
            assert forall|i: int, j: int|
                0 <= i < self.workers@.len() && 0 <= j < self.workers@.len() && i != j implies (
            #[trigger] self.workers@[i]).table() != (#[trigger] self.workers@[j]).table() by {
                if i < old(self).workers@.len() {
                    assert(self.workers@[i] == old(self).workers@[i]);
                }
                if j < old(self).workers@.len() {
                    assert(self.workers@[j] == old(self).workers@[j]);
                }
            }
            assert forall|i: int| 0 <= i < self.workers@.len() implies self.snapshot_reader.groups_of(
                (#[trigger] self.workers@[i]).table(),
            ) is None by {
                if i < old(self).workers@.len() {
                    assert(self.workers@[i] == old(self).workers@[i]);
                }
            }
            assert forall|i: int| 0 <= i < self.workers@.len() implies (#[trigger] self.workers@[i]).status()
                == WorkerStatus::Running && self.workers@[i].next() == 0 && self.task_manager.jobs()[i]
                == job_result(self.workers@[i].status()) by {
                if i < old(self).workers@.len() {
                    assert(self.workers@[i] == old(self).workers@[i]);
                    assert(old(self).task_manager.jobs()[i] == job_result(old(self).workers@[i].status()));
                }
            }
        }
        Ok(())
    }
}

impl SnapshotImporter {
    /// Runs the workers to their end, in turns: in every round each running
    /// worker, in the order in which the workers were spawned, looks at the
    /// cancellation signal and takes one step. A worker that has ended reports
    /// to the task manager, and the first failure sets the signal.
    ///
    /// The workers are run once: a second call changes nothing.
    pub fn drive(&mut self, db: &mut CombinedDatabase)
        requires
            old(self).wf(),
        ensures
            final(self).wf(),
            final(self).started(),
            final(self).genesis() == old(self).genesis(),
            final(self).snapshot() == old(self).snapshot(),
            same_tasks(final(self).workers(), old(self).workers()),
            all_ended(final(self).workers()),
            jobs_match(final(self).workers(), final(self).jobs()),
            old(self).started() ==> *final(db) == *old(db) && final(self).workers() == old(self).workers()
                && final(self).reporter() == old(self).reporter(),
            !old(self).started() ==> workers_reached(
                final(self).workers(),
                *old(db),
                old(self).reporter(),
                *final(db),
                final(self).reporter(),
            ) && one_failure(final(self).workers()),
            forall|domain: StorageDomain, column: Column|
                slot_untouched(old(self).workers(), domain, column) ==> #[trigger] final(db).store(domain).table(
                    column,
                ) == old(db).store(domain).table(column),
            forall|table: TableKind|
                untouched(old(self).workers(), table) ==> #[trigger] final(self).reporter().counter(table) == old(self).reporter().counter(table),
    {
        if self.started {
            return ;
        }
        self.started = true;
        let count = self.workers.len();
        proof {
            self.multi_progress_reporter.lemma_one_counter_per_table();
        }
        let ghost mut round: int = 0;
        let ghost mut culprit: Option<int> = None;
        let ghost mut last_running: int = 0;
        let mut running = true;
        while running
            invariant
                count == self.workers@.len(),
                self.started,
                self.genesis_block == old(self).genesis_block,
                self.snapshot_reader == old(self).snapshot_reader,
                same_tasks(self.workers@, old(self).workers@),
                distinct_tables(self.workers@),
                self.multi_progress_reporter.counters().len() == TABLE_COUNT,
                workers_reached(
                    self.workers@,
                    *old(db),
                    old(self).multi_progress_reporter,
                    *db,
                    self.multi_progress_reporter,
                ),
                jobs_match(self.workers@, self.task_manager.jobs()),
                0 <= round <= usize::MAX,
                running ==> forall|i: int|
                    0 <= i < count ==> (#[trigger] self.workers@[i]).next() <= round && (self.workers@[i].status()
                        == WorkerStatus::Running ==> self.workers@[i].next() == round),
                match culprit {
                    Some(failed) => 0 <= failed < count && self.workers@[failed].status() is Failed
                        && self.task_manager.signalled() && forall|i: int|
                        0 <= i < count ==> (#[trigger] self.workers@[i]).next() <= self.workers@[failed].next() + 1
                            && (self.workers@[i].status() is Failed ==> i == failed),
                    None => !self.task_manager.signalled() && forall|i: int|
                        0 <= i < count ==> !((#[trigger] self.workers@[i]).status() is Failed),
                },
                !running ==> all_ended(self.workers@),
                forall|domain: StorageDomain, column: Column|
                    slot_untouched(old(self).workers@, domain, column) ==> #[trigger] db.store(domain).table(column)
                        == old(db).store(domain).table(column),
                forall|table: TableKind|
                    untouched(old(self).workers@, table) ==> #[trigger] self.multi_progress_reporter.counter(table)
                        == old(self).multi_progress_reporter.counter(table),
            decreases usize::MAX - round + (if running { 1int } else { 0int }),
        {
            running = false;
            let mut at: usize = 0;
            while at < count
                invariant
                    at <= count,
                    count == self.workers@.len(),
                    self.started,
                    self.genesis_block == old(self).genesis_block,
                    self.snapshot_reader == old(self).snapshot_reader,
                    same_tasks(self.workers@, old(self).workers@),
                    distinct_tables(self.workers@),
                    self.multi_progress_reporter.counters().len() == TABLE_COUNT,
                    workers_reached(
                        self.workers@,
                        *old(db),
                        old(self).multi_progress_reporter,
                        *db,
                        self.multi_progress_reporter,
                    ),
                    jobs_match(self.workers@, self.task_manager.jobs()),
                    0 <= round,
                    forall|i: int|
                        0 <= i < at ==> (#[trigger] self.workers@[i]).next() <= round + 1 && (
                        self.workers@[i].status() == WorkerStatus::Running ==> self.workers@[i].next() == round
                            + 1),
                    forall|i: int|
                        at <= i < count ==> (#[trigger] self.workers@[i]).next() <= round && (
                        self.workers@[i].status() == WorkerStatus::Running ==> self.workers@[i].next()
                            == round),
                    match culprit {
                        Some(failed) => 0 <= failed < count && self.workers@[failed].status() is Failed
                            && self.task_manager.signalled() && forall|i: int|
                            0 <= i < count ==> (#[trigger] self.workers@[i]).next() <= self.workers@[failed].next()
                                + 1 && (self.workers@[i].status() is Failed ==> i == failed),
                        None => !self.task_manager.signalled() && forall|i: int|
                            0 <= i < count ==> !((#[trigger] self.workers@[i]).status() is Failed),
                    },
                    !running ==> forall|i: int|
                        0 <= i < at ==> (#[trigger] self.workers@[i]).status() != WorkerStatus::Running,
                    running ==> 0 <= last_running < at && self.workers@[last_running].status()
                        == WorkerStatus::Running,
                    forall|domain: StorageDomain, column: Column|
                        slot_untouched(old(self).workers@, domain, column) ==> #[trigger] db.store(domain).table(
                            column,
                        ) == old(db).store(domain).table(column),
                    forall|table: TableKind|
                        untouched(old(self).workers@, table) ==> #[trigger] self.multi_progress_reporter.counter(
                            table,
                        ) == old(self).multi_progress_reporter.counter(table),
                decreases count - at,
            {
                if self.workers[at].current_status() == WorkerStatus::Running {
                    let cancelled = self.task_manager.is_cancelled();
                    let ghost workers_before = self.workers@;
                    let ghost db_before = *db;
                    let ghost progress_before = self.multi_progress_reporter;
                    let status = step_worker(
                        &mut self.workers,
                        at,
                        cancelled,
                        db,
                        &mut self.multi_progress_reporter,
                    );
                    proof {
                        let stepped = workers_before[at as int];
                        lemma_step_keeps_reached(
                            stepped.table(),
                            stepped.groups(),
                            old(db).content(stepped.table()),
                            old(self).multi_progress_reporter.counter(stepped.table()),
                            stepped.state(db_before, progress_before),
                            cancelled,
                        );
                        lemma_ordinal_is_place(stepped.table());
                        assert forall|table: TableKind| table != stepped.table() implies #[trigger] db.content(
                            table,
                        ) == db_before.content(table) && self.multi_progress_reporter.counter(table)
                            == progress_before.counter(table) by {
                            lemma_columns_disjoint(table, stepped.table());
                            lemma_ordinal_is_place(table);
                        }
                        assert forall|i: int| 0 <= i < count && i != at implies (#[trigger] self.workers@[i]).state(
                            *db,
                            self.multi_progress_reporter,
                        ) == workers_before[i].state(db_before, progress_before) by {
                            assert(self.workers@[i] == workers_before[i]);
                            assert(workers_before[i].table() != workers_before[at as int].table());
                        }
                        assert(old(self).workers@[at as int].table() == stepped.table());
                        assert forall|domain: StorageDomain, column: Column|
                            slot_untouched(old(self).workers@, domain, column) implies #[trigger] db.store(
                            domain,
                        ).table(column) == old(db).store(domain).table(column) by {
                            assert(!(old(self).workers@[at as int].table().spec_domain() == domain && old(self).workers@[at as int].table().spec_column() == column));
                            assert(db.store(domain).table(column) == db_before.store(domain).table(column));
                        }
                        assert forall|table: TableKind|
                            untouched(
                                old(self).workers@,
                                table,
                            ) implies #[trigger] self.multi_progress_reporter.counter(table) == old(self).multi_progress_reporter.counter(table) by {
                            assert(old(self).workers@[at as int].table() != table);
                            assert(db.content(table) == db_before.content(table));
                        }
                    }
                    match status {
                        WorkerStatus::Running => {
                            running = true;
                            proof {
                                last_running = at as int;
                            }
                        },
                        WorkerStatus::Failed(error) => {
                            self.task_manager.finish(at, Err(error));
                            proof {
                                culprit = Some(at as int);
                            }
                        },
                        _ => {
                            self.task_manager.finish(at, Ok(()));
                        },
                    }
                }
                at += 1;
            }
            proof {
                if running {
                    self.workers@[last_running].lemma_next_bounded();
                    assert(self.workers@[last_running].next() == round + 1);
                    round = round + 1;
                }
            }
        }
    }
}

/// The first table from the place `from` on, in the order in which workers
/// are started, that the snapshot does not hold.
pub open spec fn first_missing_from(snapshot: SnapshotReader, from: int) -> Option<TableKind>
    decreases TABLE_COUNT - from,
{
    if from < 0 || from >= TABLE_COUNT {
        None
    } else if snapshot.groups_of(TableKind::at(from)) is None {
        Some(TableKind::at(from))
    } else {
        first_missing_from(snapshot, from + 1)
    }
}

/// The first table, in the order in which workers are started, that the
/// snapshot does not hold.
pub open spec fn first_missing(snapshot: SnapshotReader) -> Option<TableKind> {
    first_missing_from(snapshot, 0)
}

/// Whether a store of a node is the target of a snapshot table.
pub open spec fn import_target(domain: StorageDomain, column: Column) -> bool {
    exists|table: TableKind| #[trigger] table.spec_domain() == domain && table.spec_column() == column
}

/// Whether `ends` are the ends that the workers of an import of `snapshot`
/// into `origin` came to, one for each table in the order in which the
/// workers are started, `db` is what the import left, and `result` is what it
/// returned.
///
/// Every worker has ended. What it wrote is a prefix of the groups of its
/// table, in order and nothing else, or that and the entries before the one
/// that failed; its column holds just that, and its counter, registered with
/// the number of its groups, has counted each imported group. At most one
/// worker has failed, no worker is more than one group beyond the failed one,
/// and the failure is the result. Without a failure the result is success.
pub open spec fn import_outcome(
    snapshot: SnapshotReader,
    origin: CombinedDatabase,
    db: CombinedDatabase,
    ends: Seq<WorkerState>,
    result: Result<(), ImportError>,
) -> bool {
    &&& ends.len() == TABLE_COUNT
    &&& forall|place: int|
        0 <= place < TABLE_COUNT ==> (#[trigger] ends[place]).status != WorkerStatus::Running && ends[place].content
            == db.content(TableKind::at(place)) && reached(
            TableKind::at(place),
            snapshot.groups_of(TableKind::at(place))->0@,
            origin.content(TableKind::at(place)),
            Some(
                ProgressCounter {
                    processed: 0,
                    total: snapshot.groups_of(TableKind::at(place))->0@.len() as usize,
                },
            ),
            ends[place],
        )
    &&& forall|failed: int, other: int|
        0 <= failed < TABLE_COUNT && 0 <= other < TABLE_COUNT && (#[trigger] ends[failed]).status is Failed ==> (
        #[trigger] ends[other]).next <= ends[failed].next + 1 && (ends[other].status is Failed ==> failed
            == other)
    &&& forall|failed: int|
        0 <= failed < TABLE_COUNT && (#[trigger] ends[failed]).status is Failed ==> result == Err::<
            (),
            ImportError,
        >(ends[failed].status->Failed_0)
    &&& (forall|place: int| 0 <= place < TABLE_COUNT ==> !((#[trigger] ends[place]).status is Failed)) ==> result
        == Ok::<(), ImportError>(())
}

/// Where no job before `failed` has failed, the failure of `failed` is the
/// first.
proof fn lemma_first_failure_found(jobs: Seq<Option<Result<(), ImportError>>>, from: int, failed: int)
    requires
        0 <= from <= failed < jobs.len(),
        jobs[failed] is Some,
        jobs[failed]->0 is Err,
        forall|job: int| from <= job < failed ==> !((#[trigger] jobs[job]) is Some && jobs[job]->0 is Err),
    ensures
        first_failure_from(jobs, from) == Some(jobs[failed]->0->Err_0),
    decreases failed - from,
{
    if from < failed {
        assert(!(jobs[from] is Some && jobs[from]->0 is Err));
        lemma_first_failure_found(jobs, from + 1, failed);
    }
}

/// Where no job has failed there is no first failure.
proof fn lemma_no_failure(jobs: Seq<Option<Result<(), ImportError>>>, from: int)
    requires
        0 <= from,
        forall|job: int| from <= job < jobs.len() ==> !((#[trigger] jobs[job]) is Some && jobs[job]->0 is Err),
    ensures
        first_failure_from(jobs, from) is None,
    decreases jobs.len() - from,
{
    if from < jobs.len() {
        assert(!(jobs[from] is Some && jobs[from]->0 is Err));
        lemma_no_failure(jobs, from + 1);
    }
}

/// The join point returns the failure of the worker that failed: where the
/// task manager knows how every worker ended and at most one worker has
/// failed, the first failure among the jobs is the failure of that worker,
/// and there is none where no worker has failed.
pub proof fn lemma_wait_returns_the_failure(workers: Seq<ImportWorker>, jobs: Seq<Option<Result<(), ImportError>>>)
    requires
        jobs_match(workers, jobs),
        one_failure(workers),
    ensures
        forall|failed: int|
            0 <= failed < workers.len() && (#[trigger] workers[failed]).status() is Failed ==> first_failure(jobs)
                == Some(workers[failed].status()->Failed_0),
        (forall|i: int| 0 <= i < workers.len() ==> !((#[trigger] workers[i]).status() is Failed)) ==> first_failure(
            jobs,
        ) is None,
{
    assert forall|failed: int|
        0 <= failed < workers.len() && (#[trigger] workers[failed]).status() is Failed implies first_failure(jobs)
        == Some(workers[failed].status()->Failed_0) by {
        assert(jobs[failed] == job_result(workers[failed].status()));
        assert forall|job: int| 0 <= job < failed implies !((#[trigger] jobs[job]) is Some && jobs[job]->0 is Err) by {
            assert(jobs[job] == job_result(workers[job].status()));
            assert(workers[job].status() is Failed ==> failed == job);
        }
        lemma_first_failure_found(jobs, 0, failed);
    }
    if forall|i: int| 0 <= i < workers.len() ==> !((#[trigger] workers[i]).status() is Failed) {
        assert forall|job: int| 0 <= job < jobs.len() implies !((#[trigger] jobs[job]) is Some && jobs[job]->0 is Err) by {
            assert(jobs[job] == job_result(workers[job].status()));
            assert(!(workers[job].status() is Failed));
        }
        lemma_no_failure(jobs, 0);
    }
}

impl SnapshotImporter {
    /// Prepares the workers of all tables, in the fixed order of the tables.
    /// The first table that the snapshot does not hold is an error; the
    /// workers of the tables before it are prepared then, and none has run.
    pub fn spawn_all(&mut self) -> (result: Result<(), ImportError>)
        requires
            old(self).wf(),
        ensures
            final(self).wf(),
            final(self).started() == old(self).started(),
            final(self).genesis() == old(self).genesis(),
            old(self).started() ==> result == Err::<(), ImportError>(ImportError::AlreadyStarted),
            !old(self).started() && first_missing(old(self).snapshot()) is Some ==> result == Err::<
                (),
                ImportError,
            >(ImportError::MissingTable { table: first_missing(old(self).snapshot())->0 }),
            !old(self).started() && first_missing(old(self).snapshot()) is None ==> result == Ok::<
                (),
                ImportError,
            >(()),
            result is Ok ==> final(self).workers().len() == old(self).workers().len() + TABLE_COUNT,
            result is Ok ==> forall|place: int|
                0 <= place < TABLE_COUNT ==> {
                    let worker = #[trigger] final(self).workers()[old(self).workers().len() + place];
                    let groups = old(self).snapshot().groups_of(TableKind::at(place))->0;
                    &&& worker.table() == TableKind::at(place)
                    &&& worker.groups() == groups@
                    &&& worker.handler().block_height == old(self).genesis().height
                    &&& worker.handler().da_block_height == old(self).genesis().da_height
                    &&& final(self).reporter().counter(TableKind::at(place)) == Some(
                        ProgressCounter { processed: 0, total: groups@.len() as usize },
                    )
                },
    {
        let mut place: usize = 0;
        while place < TABLE_COUNT
            invariant
                place <= TABLE_COUNT,
                self.wf(),
                self.started() == old(self).started(),
                self.genesis() == old(self).genesis(),
                !self.started() || place == 0,
                first_missing(old(self).snapshot()) == first_missing_from(old(self).snapshot(), place as int),
                forall|later: int|
                    place <= later < TABLE_COUNT ==> #[trigger] self.snapshot().groups_of(TableKind::at(later))
                        == old(self).snapshot().groups_of(TableKind::at(later)),
                self.workers().len() == old(self).workers().len() + place,
                forall|earlier: int|
                    0 <= earlier < place ==> {
                        let worker = #[trigger] self.workers()[old(self).workers().len() + earlier];
                        let groups = old(self).snapshot().groups_of(TableKind::at(earlier))->0;
                        &&& worker.table() == TableKind::at(earlier)
                        &&& worker.groups() == groups@
                        &&& worker.handler().block_height == old(self).genesis().height
                        &&& worker.handler().da_block_height == old(self).genesis().da_height
                        &&& self.reporter().counter(TableKind::at(earlier)) == Some(
                            ProgressCounter { processed: 0, total: groups@.len() as usize },
                        )
                    },
            decreases TABLE_COUNT - place,
        {
            let table = match TableKind::from_index(place) {
                Some(table) => table,
                None => {
                    return Err(ImportError::AlreadyStarted);
                },
            };
            let ghost before = *self;
            proof {
                lemma_place_is_ordinal(place as int);
            }
            match self.spawn_worker(table) {
                Ok(()) => {},
                Err(error) => {
                    return Err(error);
                },
            }
            proof {
                assert forall|later: int| place + 1 <= later < TABLE_COUNT implies #[trigger] self.snapshot().groups_of(
                    TableKind::at(later),
                ) == old(self).snapshot().groups_of(TableKind::at(later)) by {
                    lemma_place_is_ordinal(later);
                }
                assert forall|earlier: int| 0 <= earlier < place + 1 implies {
                    let worker = #[trigger] self.workers()[old(self).workers().len() + earlier];
                    let groups = old(self).snapshot().groups_of(TableKind::at(earlier))->0;
                    &&& worker.table() == TableKind::at(earlier)
                    &&& worker.groups() == groups@
                    &&& worker.handler().block_height == old(self).genesis().height
                    &&& worker.handler().da_block_height == old(self).genesis().da_height
                    &&& self.reporter().counter(TableKind::at(earlier)) == Some(
                        ProgressCounter { processed: 0, total: groups@.len() as usize },
                    )
                } by {
                    lemma_place_is_ordinal(earlier);
                    lemma_place_is_ordinal(place as int);
                    if earlier < place {
                        assert(self.workers().drop_last()[old(self).workers().len() + earlier]
                            == self.workers()[old(self).workers().len() + earlier]);
                        assert(before.workers()[old(self).workers().len() + earlier]
                            == self.workers()[old(self).workers().len() + earlier]);
                    } else {
                        assert(self.workers()[old(self).workers().len() + earlier] == self.workers().last());
                    }
                }
            }
            place += 1;
        }
        Ok(())
    }

    /// Imports the whole snapshot: prepares the workers of all tables, runs
    /// them to their end and joins them.
    ///
    /// Where the snapshot does not hold a table, the first such table is the
    /// error and nothing is written. Otherwise the result is the failure of
    /// the worker that failed, or success; `import_outcome` says what the
    /// stores hold then. Nothing but the columns of the snapshot tables is
    /// written to.
    pub fn run_workers(self, db: &mut CombinedDatabase) -> (result: Result<(), ImportError>)
        requires
            self.wf(),
        ensures
            self.started() ==> result == Err::<(), ImportError>(ImportError::AlreadyStarted) && *final(db)
                == *old(db),
            !self.started() && first_missing(self.snapshot()) is Some ==> result == Err::<(), ImportError>(
                ImportError::MissingTable { table: first_missing(self.snapshot())->0 },
            ) && *final(db) == *old(db),
            !self.started() && first_missing(self.snapshot()) is None ==> exists|ends: Seq<WorkerState>|
                #[trigger] import_outcome(self.snapshot(), *old(db), *final(db), ends, result),
            forall|domain: StorageDomain, column: Column|
                !import_target(domain, column) ==> #[trigger] final(db).store(domain).table(column) == old(
                    db,
                ).store(domain).table(column),
    {
        let mut importer = self;
        match importer.spawn_all() {
            Ok(()) => {},
            Err(error) => {
                return Err(error);
            },
        }
        let ghost spawned = importer;
        proof {
            // the snapshot held every table, so no worker had been prepared before
            if self.workers@.len() > 0 {
                lemma_ordinal_is_place(self.workers@[0].table());
                lemma_all_present(self.snapshot_reader, 0, self.workers@[0].table().ordinal());
                assert(self.snapshot_reader.groups_of(self.workers@[0].table()) is None);
            }
            assert(self.workers@.len() == 0);
        }
        importer.drive(db);
        let ghost ends = Seq::new(
            TABLE_COUNT as nat,
            |place: int| importer.workers()[place].state(*db, importer.reporter()),
        );
        proof {
            lemma_wait_returns_the_failure(importer.workers(), importer.jobs());
            assert forall|domain: StorageDomain, column: Column| !import_target(domain, column) implies #[trigger] db.store(
                domain,
            ).table(column) == old(db).store(domain).table(column) by {
                assert forall|i: int| 0 <= i < spawned.workers().len() implies !((
                #[trigger] spawned.workers()[i]).table().spec_domain() == domain && spawned.workers()[i].table().spec_column()
                    == column) by {
                    let table = spawned.workers()[i].table();
                    if table.spec_domain() == domain && table.spec_column() == column {
                        assert(import_target(domain, column));
                    }
                }
            }
            assert forall|place: int| 0 <= place < TABLE_COUNT implies (#[trigger] ends[place]).status
                != WorkerStatus::Running && ends[place].content == db.content(TableKind::at(place)) && reached(
                TableKind::at(place),
                self.snapshot().groups_of(TableKind::at(place))->0@,
                old(db).content(TableKind::at(place)),
                Some(
                    ProgressCounter {
                        processed: 0,
                        total: self.snapshot().groups_of(TableKind::at(place))->0@.len() as usize,
                    },
                ),
                ends[place],
            ) by {
                let before = spawned.workers()[self.workers().len() + place];
                let after = importer.workers()[place];
                assert(before.table() == TableKind::at(place));
                assert(after.table() == before.table());
            }
        }
        let ghost workers = importer.workers@;
        let jobs = importer.task_manager;
        let result = match jobs.wait() {
            Ok(_) => Ok(()),
            Err(error) => Err(error),
        };
        proof {
            assert forall|failed: int, other: int|
                0 <= failed < TABLE_COUNT && 0 <= other < TABLE_COUNT && (
                #[trigger] ends[failed]).status is Failed implies (#[trigger] ends[other]).next <= ends[failed].next
                + 1 && (ends[other].status is Failed ==> failed == other) by {
                assert(workers[failed].status() is Failed);
                assert(workers[other].next() <= workers[failed].next() + 1);
            }
            assert forall|failed: int|
                0 <= failed < TABLE_COUNT && (#[trigger] ends[failed]).status is Failed implies result == Err::<
                (),
                ImportError,
            >(ends[failed].status->Failed_0) by {
                assert(workers[failed].status() is Failed);
            }
            if forall|place: int| 0 <= place < TABLE_COUNT ==> !((#[trigger] ends[place]).status is Failed) {
                assert forall|i: int| 0 <= i < workers.len() implies !((#[trigger] workers[i]).status() is Failed) by {
                    assert(ends[i].status == workers[i].status());
                }
            }
            assert(import_outcome(self.snapshot(), *old(db), *db, ends, result));
        }
        result
    }

    /// Imports `snapshot_reader` into `db` for the genesis block
    /// `genesis_block`, and stops early when `watcher` says that the node
    /// shuts down. See `run_workers`.
    pub fn import(
        db: &mut CombinedDatabase,
        genesis_block: GenesisBlock,
        snapshot_reader: SnapshotReader,
        watcher: StateWatcher,
    ) -> (result: Result<(), ImportError>)
        ensures
            first_missing(snapshot_reader) is Some ==> result == Err::<(), ImportError>(
                ImportError::MissingTable { table: first_missing(snapshot_reader)->0 },
            ) && *final(db) == *old(db),
            first_missing(snapshot_reader) is None ==> exists|ends: Seq<WorkerState>|
                #[trigger] import_outcome(snapshot_reader, *old(db), *final(db), ends, result),
            forall|domain: StorageDomain, column: Column|
                !import_target(domain, column) ==> #[trigger] final(db).store(domain).table(column) == old(
                    db,
                ).store(domain).table(column),
    {
        SnapshotImporter::new(genesis_block, snapshot_reader, watcher).run_workers(db)
    }
}

/// Where the snapshot holds no table from `from` on that it lacks, it holds
/// the table at `place`.
proof fn lemma_all_present(snapshot: SnapshotReader, from: int, place: int)
    requires
        0 <= from <= place < TABLE_COUNT,
        first_missing_from(snapshot, from) is None,
    ensures
        snapshot.groups_of(TableKind::at(place)) is Some,
    decreases place - from,
{
    if from < place {
        lemma_all_present(snapshot, from + 1, place);
    }
}

} // verus!
