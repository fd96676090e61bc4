use fuel_core_services::{State, StateWatcher};
use fuel_core_types::blockchain::primitives::DaBlockHeight;
use fuel_core_types::fuel_types::BlockHeight;
use fuel_genesis::combined_database::CombinedDatabase;
use fuel_genesis::database::{Column, Database};
use fuel_genesis::genesis::import_task::{
    import_entries, write_entries, ImportError, ImportWorker, TableEntry, WorkerStatus,
};
use fuel_genesis::genesis::importer::{GenesisBlock, Groups, Handler, SnapshotImporter, SnapshotReader};
use fuel_genesis::genesis::progress::{CombinedProgress, MultipleProgressReporter, ProgressCounter};
use fuel_genesis::genesis::table::{StorageDomain, TableKind, TABLE_COUNT};
use fuel_genesis::genesis::task_manager::{CancellationToken, TaskManager};
use tokio::sync::watch;

const ALL_TABLES: [TableKind; 16] = [
    TableKind::Coins,
    TableKind::ContractsAssets,
    TableKind::ContractsLatestUtxo,
    TableKind::ContractsRawCode,
    TableKind::ContractsState,
    TableKind::FuelBlocks,
    TableKind::Messages,
    TableKind::OldFuelBlockConsensus,
    TableKind::OldFuelBlocks,
    TableKind::OldTransactions,
    TableKind::OwnedTransactions,
    TableKind::ProcessedTransactions,
    TableKind::SealedBlockConsensus,
    TableKind::SpentMessages,
    TableKind::TransactionStatuses,
    TableKind::Transactions,
];

fn watcher(state: State) -> (watch::Sender<State>, StateWatcher) {
    let (sender, receiver) = watch::channel(state);
    (sender, StateWatcher::from(receiver))
}

fn genesis() -> GenesisBlock {
    GenesisBlock { height: BlockHeight::new(7), da_height: DaBlockHeight(11) }
}

fn handler() -> Handler {
    Handler::new(BlockHeight::new(7), DaBlockHeight(11))
}

fn entry(key: u8, value: u8) -> TableEntry {
    TableEntry { key: vec![key], value: vec![value] }
}

/// `count` groups of two entries each, with keys that begin at `first`.
fn groups(first: u8, count: u8) -> Groups {
    (0..count)
        .map(|group| Some(vec![entry(first + 2 * group, group), entry(first + 2 * group + 1, group)]))
        .collect()
}

fn empty_snapshot() -> SnapshotReader {
    let mut snapshot = SnapshotReader::new();
    for table in ALL_TABLES {
        snapshot.insert(table, Vec::new());
    }
    snapshot
}

fn stores() -> CombinedDatabase {
    CombinedDatabase::new(Database::new(), Database::new())
}

fn store_of(db: &CombinedDatabase, table: TableKind) -> &Database {
    match table.domain() {
        StorageDomain::OnChain => db.on_chain(),
        StorageDomain::OffChain => db.off_chain(),
    }
}

fn written(db: &CombinedDatabase, table: TableKind) -> usize {
    store_of(db, table).iter_all(table.column(), None).len()
}

#[test]
fn handler_new_keeps_the_heights() {
    let handler = Handler::new(BlockHeight::new(3), DaBlockHeight(9));
    assert_eq!(handler.block_height, BlockHeight::new(3));
    assert_eq!(handler.da_block_height, DaBlockHeight(9));
}

#[test]
fn tables_have_their_domain_and_column() {
    assert_eq!(TABLE_COUNT, 16);
    assert_eq!(TableKind::Coins.domain(), StorageDomain::OnChain);
    assert_eq!(TableKind::Transactions.domain(), StorageDomain::OnChain);
    assert_eq!(TableKind::OldFuelBlocks.domain(), StorageDomain::OffChain);
    assert_eq!(TableKind::SpentMessages.domain(), StorageDomain::OffChain);
    assert_eq!(TableKind::ContractsRawCode.column(), Column::ContractsRawCode);
    for (place, table) in ALL_TABLES.iter().enumerate() {
        assert_eq!(table.index(), place);
        assert_eq!(TableKind::from_index(place), Some(*table));
        for other in ALL_TABLES.iter() {
            if other != table {
                assert_ne!(other.column(), table.column());
            }
        }
    }
    assert_eq!(TableKind::from_index(16), None);
}

#[test]
fn progress_counts_up_to_the_total() {
    let mut reporter = MultipleProgressReporter::new();
    assert_eq!(reporter.progress(TableKind::Coins), None);
    assert!(!reporter.is_complete(TableKind::Coins));
    reporter.register(TableKind::Coins, 2);
    assert_eq!(
        reporter.progress(TableKind::Coins),
        Some(ProgressCounter { processed: 0, total: 2 })
    );
    reporter.tick(TableKind::Coins);
    assert_eq!(
        reporter.progress(TableKind::Coins),
        Some(ProgressCounter { processed: 1, total: 2 })
    );
    assert!(!reporter.is_complete(TableKind::Coins));
    reporter.tick(TableKind::Coins);
    reporter.tick(TableKind::Coins);
    assert_eq!(
        reporter.progress(TableKind::Coins),
        Some(ProgressCounter { processed: 2, total: 2 })
    );
    assert!(reporter.is_complete(TableKind::Coins));
    // a tick for a table that is not registered counts nothing
    reporter.tick(TableKind::Messages);
    assert_eq!(reporter.progress(TableKind::Messages), None);
}

#[test]
fn progress_of_a_table_without_groups_is_complete() {
    let mut reporter = MultipleProgressReporter::new();
    reporter.register(TableKind::Messages, 0);
    assert!(reporter.is_complete(TableKind::Messages));
    assert_eq!(reporter.combined(), CombinedProgress { processed: 0, total: 0 });
}

#[test]
fn progress_is_summed_over_the_tables() {
    let mut reporter = MultipleProgressReporter::new();
    reporter.register(TableKind::Coins, 3);
    reporter.register(TableKind::Messages, 0);
    reporter.register(TableKind::Transactions, 5);
    reporter.tick(TableKind::Coins);
    reporter.tick(TableKind::Transactions);
    reporter.tick(TableKind::Transactions);
    assert_eq!(reporter.combined(), CombinedProgress { processed: 3, total: 8 });
    // registering again starts the count of the table anew
    reporter.register(TableKind::Transactions, 4);
    assert_eq!(reporter.combined(), CombinedProgress { processed: 1, total: 7 });
}

#[test]
fn task_manager_returns_the_results_in_spawn_order() {
    let (_sender, watcher) = watcher(State::Started);
    let mut manager: TaskManager<u32> = TaskManager::new(watcher);
    let first = manager.spawn();
    let second = manager.spawn();
    assert_eq!((first, second), (0, 1));
    assert!(!manager.all_finished());
    assert!(manager.finish(second, Ok(20)));
    assert!(!manager.is_cancelled());
    assert!(manager.finish(first, Ok(10)));
    assert!(manager.all_finished());
    assert_eq!(manager.wait(), Ok(vec![10, 20]));
}

#[test]
fn task_manager_returns_the_failure_spawned_first() {
    let (_sender, watcher) = watcher(State::Started);
    let mut manager: TaskManager<()> = TaskManager::new(watcher);
    let token = manager.token();
    for _ in 0..3 {
        manager.spawn();
    }
    let late = ImportError::Decode { table: TableKind::Messages, group: 4 };
    let early = ImportError::Decode { table: TableKind::Coins, group: 1 };
    assert!(manager.finish(2, Err(late)));
    assert!(manager.is_cancelled());
    assert!(token.is_cancelled());
    assert!(manager.finish(0, Err(early)));
    assert!(manager.finish(1, Ok(())));
    assert_eq!(manager.wait(), Err(early));
}

#[test]
fn task_manager_records_the_end_of_a_job_once() {
    let (_sender, watcher) = watcher(State::Started);
    let mut manager: TaskManager<()> = TaskManager::new(watcher);
    manager.spawn();
    assert!(!manager.finish(1, Ok(())));
    assert!(manager.finish(0, Ok(())));
    assert!(!manager.finish(0, Err(ImportError::AlreadyStarted)));
    assert!(!manager.is_cancelled());
    assert_eq!(manager.wait(), Ok(vec![()]));
}

#[test]
fn task_manager_without_jobs_succeeds() {
    let (_sender, watcher) = watcher(State::Started);
    let manager: TaskManager<()> = TaskManager::new(watcher);
    assert!(manager.all_finished());
    assert_eq!(manager.wait(), Ok(vec![]));
}

#[test]
fn cancellation_token_follows_the_node() {
    let (sender, watcher) = watcher(State::Started);
    let token = CancellationToken::new(watcher);
    assert!(!token.is_cancelled());
    sender.send(State::Stopping).unwrap();
    assert!(token.is_cancelled());
    sender.send(State::Stopped).unwrap();
    assert!(token.is_cancelled());
}

#[test]
fn cancellation_token_stays_set() {
    let (_sender, watcher) = watcher(State::Started);
    let token = CancellationToken::new(watcher);
    let copy = token.clone();
    token.cancel();
    token.cancel();
    assert!(token.is_cancelled());
    assert!(copy.is_cancelled());
}

#[test]
fn write_entries_stops_at_a_key_that_exists() {
    let mut store = Database::new();
    store.write(&[3], Column::Coins, &[0]);
    let entries = vec![entry(1, 10), entry(2, 20), entry(3, 30), entry(4, 40)];
    assert_eq!(write_entries(&mut store, Column::Coins, &entries), Some(2));
    assert_eq!(
        store.iter_all(Column::Coins, None),
        vec![(vec![1], vec![10]), (vec![2], vec![20]), (vec![3], vec![0])]
    );
    let mut fresh = Database::new();
    assert_eq!(write_entries(&mut fresh, Column::Coins, &entries), None);
    assert_eq!(fresh.iter_all(Column::Coins, None).len(), 4);
    // a key that comes twice in one group is there already the second time
    let twice = vec![entry(1, 10), entry(1, 11)];
    let mut other = Database::new();
    assert_eq!(write_entries(&mut other, Column::Coins, &twice), Some(1));
    assert_eq!(other.read_alloc(&[1], Column::Coins), Some(vec![10]));
}

#[test]
fn worker_imports_one_group_per_step() {
    let mut db = stores();
    let mut reporter = MultipleProgressReporter::new();
    reporter.register(TableKind::Coins, 2);
    let mut worker = ImportWorker::new(TableKind::Coins, handler(), groups(0, 2));
    assert_eq!(worker.total_groups(), 2);
    assert_eq!(worker.table_kind(), TableKind::Coins);
    assert_eq!(worker.context().block_height, BlockHeight::new(7));
    assert_eq!(worker.context().da_block_height, DaBlockHeight(11));
    assert_eq!(worker.step(false, &mut db, &mut reporter), WorkerStatus::Running);
    assert_eq!(worker.processed_groups(), 1);
    assert_eq!(written(&db, TableKind::Coins), 2);
    assert_eq!(worker.step(false, &mut db, &mut reporter), WorkerStatus::Finished);
    assert_eq!(worker.processed_groups(), 2);
    assert_eq!(written(&db, TableKind::Coins), 4);
    assert_eq!(
        reporter.progress(TableKind::Coins),
        Some(ProgressCounter { processed: 2, total: 2 })
    );
    // a worker that has ended stays as it is
    assert_eq!(worker.step(true, &mut db, &mut reporter), WorkerStatus::Finished);
    assert_eq!(worker.current_status(), WorkerStatus::Finished);
    // nothing went to the other store
    assert!(db.off_chain().iter_all(Column::Coins, None).is_empty());
}

#[test]
fn worker_writes_to_the_store_of_its_domain() {
    let mut db = stores();
    let mut reporter = MultipleProgressReporter::new();
    let mut worker = ImportWorker::new(TableKind::OldTransactions, handler(), groups(0, 1));
    assert_eq!(worker.step(false, &mut db, &mut reporter), WorkerStatus::Finished);
    assert_eq!(db.off_chain().iter_all(Column::OldTransactions, None).len(), 2);
    assert!(db.on_chain().iter_all(Column::OldTransactions, None).is_empty());
}

#[test]
fn worker_stops_on_the_signal_between_groups() {
    let mut db = stores();
    let mut reporter = MultipleProgressReporter::new();
    reporter.register(TableKind::Coins, 3);
    let mut worker = ImportWorker::new(TableKind::Coins, handler(), groups(0, 3));
    assert_eq!(worker.step(false, &mut db, &mut reporter), WorkerStatus::Running);
    assert_eq!(worker.step(true, &mut db, &mut reporter), WorkerStatus::Stopped);
    assert_eq!(worker.processed_groups(), 1);
    assert_eq!(written(&db, TableKind::Coins), 2);
    assert_eq!(
        reporter.progress(TableKind::Coins),
        Some(ProgressCounter { processed: 1, total: 3 })
    );
}

#[test]
fn worker_cancelled_before_its_first_group_writes_nothing() {
    let mut db = stores();
    let mut reporter = MultipleProgressReporter::new();
    reporter.register(TableKind::Coins, 3);
    let mut worker = ImportWorker::new(TableKind::Coins, handler(), groups(0, 3));
    assert_eq!(worker.step(true, &mut db, &mut reporter), WorkerStatus::Stopped);
    assert_eq!(worker.step(false, &mut db, &mut reporter), WorkerStatus::Stopped);
    assert_eq!(written(&db, TableKind::Coins), 0);
    assert_eq!(worker.processed_groups(), 0);
}

#[test]
fn worker_without_groups_finishes_at_once() {
    let mut db = stores();
    let mut reporter = MultipleProgressReporter::new();
    reporter.register(TableKind::Messages, 0);
    let mut worker = ImportWorker::new(TableKind::Messages, handler(), Vec::new());
    assert_eq!(worker.current_status(), WorkerStatus::Running);
    assert_eq!(worker.step(true, &mut db, &mut reporter), WorkerStatus::Finished);
    assert!(reporter.is_complete(TableKind::Messages));
}

#[test]
fn worker_fails_on_a_group_that_cannot_be_decoded() {
    let mut db = stores();
    let mut reporter = MultipleProgressReporter::new();
    reporter.register(TableKind::Coins, 3);
    let mut all = groups(0, 3);
    all[1] = None;
    let mut worker = ImportWorker::new(TableKind::Coins, handler(), all);
    assert_eq!(worker.step(false, &mut db, &mut reporter), WorkerStatus::Running);
    let failure = ImportError::Decode { table: TableKind::Coins, group: 1 };
    assert_eq!(worker.step(false, &mut db, &mut reporter), WorkerStatus::Failed(failure));
    assert_eq!(worker.step(false, &mut db, &mut reporter), WorkerStatus::Failed(failure));
    assert_eq!(worker.processed_groups(), 1);
    assert_eq!(written(&db, TableKind::Coins), 2);
}

#[test]
fn worker_fails_on_a_key_that_exists() {
    let mut db = stores();
    db.on_chain.write(&[3], Column::Coins, &[0]);
    let mut reporter = MultipleProgressReporter::new();
    reporter.register(TableKind::Coins, 2);
    let mut worker = ImportWorker::new(TableKind::Coins, handler(), groups(0, 2));
    assert_eq!(worker.step(false, &mut db, &mut reporter), WorkerStatus::Running);
    let failure = ImportError::KeyAlreadyExists { table: TableKind::Coins, group: 1, entry: 1 };
    assert_eq!(worker.step(false, &mut db, &mut reporter), WorkerStatus::Failed(failure));
    // the entry before the failing one stays written, the group is not counted
    assert_eq!(db.on_chain().read_alloc(&[2], Column::Coins), Some(vec![1]));
    assert_eq!(db.on_chain().read_alloc(&[3], Column::Coins), Some(vec![0]));
    assert_eq!(
        reporter.progress(TableKind::Coins),
        Some(ProgressCounter { processed: 1, total: 2 })
    );
}

#[test]
fn import_entries_runs_to_the_end() {
    let (_sender, watcher) = watcher(State::Started);
    let token = CancellationToken::new(watcher);
    let mut db = stores();
    let mut reporter = MultipleProgressReporter::new();
    reporter.register(TableKind::FuelBlocks, 4);
    let result = import_entries(
        &token,
        handler(),
        TableKind::FuelBlocks,
        groups(0, 4),
        &mut db,
        &mut reporter,
    );
    assert_eq!(result, Ok(()));
    assert_eq!(
        reporter.progress(TableKind::FuelBlocks),
        Some(ProgressCounter { processed: 4, total: 4 })
    );
    let entries = db.on_chain().iter_all(Column::FuelBlocks, None);
    let keys: Vec<u8> = entries.iter().map(|entry| entry.0[0]).collect();
    assert_eq!(keys, vec![0, 1, 2, 3, 4, 5, 6, 7]);
    let values: Vec<u8> = entries.iter().map(|entry| entry.1[0]).collect();
    assert_eq!(values, vec![0, 0, 1, 1, 2, 2, 3, 3]);
}

#[test]
fn import_entries_stops_when_cancelled() {
    let (_sender, watcher) = watcher(State::Started);
    let token = CancellationToken::new(watcher);
    token.cancel();
    let mut db = stores();
    let mut reporter = MultipleProgressReporter::new();
    reporter.register(TableKind::FuelBlocks, 4);
    let result = import_entries(
        &token,
        handler(),
        TableKind::FuelBlocks,
        groups(0, 4),
        &mut db,
        &mut reporter,
    );
    assert_eq!(result, Ok(()));
    assert_eq!(written(&db, TableKind::FuelBlocks), 0);
    assert_eq!(
        reporter.progress(TableKind::FuelBlocks),
        Some(ProgressCounter { processed: 0, total: 4 })
    );
}

#[test]
fn import_entries_returns_the_failure() {
    let (_sender, watcher) = watcher(State::Started);
    let token = CancellationToken::new(watcher);
    let mut db = stores();
    let mut reporter = MultipleProgressReporter::new();
    let mut all = groups(0, 3);
    all[2] = None;
    let result = import_entries(&token, handler(), TableKind::Messages, all, &mut db, &mut reporter);
    assert_eq!(result, Err(ImportError::Decode { table: TableKind::Messages, group: 2 }));
    assert_eq!(written(&db, TableKind::Messages), 4);
}

#[test]
fn snapshot_hands_out_a_table_once() {
    let mut snapshot = SnapshotReader::new();
    assert_eq!(
        snapshot.read(TableKind::Coins),
        Err(ImportError::MissingTable { table: TableKind::Coins })
    );
    snapshot.insert(TableKind::Messages, groups(0, 2));
    assert_eq!(snapshot.read(TableKind::Messages), Ok(groups(0, 2)));
    assert_eq!(
        snapshot.read(TableKind::Messages),
        Err(ImportError::MissingTable { table: TableKind::Messages })
    );
    assert_eq!(
        snapshot.read(TableKind::Transactions),
        Err(ImportError::MissingTable { table: TableKind::Transactions })
    );
}

#[test]
fn import_writes_every_group_of_every_table() {
    let (_sender, watcher) = watcher(State::Started);
    let mut snapshot = SnapshotReader::new();
    for (place, table) in ALL_TABLES.iter().enumerate() {
        snapshot.insert(*table, groups(0, place as u8));
    }
    let mut db = stores();
    let mut importer = SnapshotImporter::new(genesis(), snapshot, watcher);
    assert_eq!(importer.spawn_all(), Ok(()));
    assert_eq!(importer.worker_count(), 16);
    importer.drive(&mut db);
    for (place, table) in ALL_TABLES.iter().enumerate() {
        assert_eq!(
            importer.progress().progress(*table),
            Some(ProgressCounter { processed: place, total: place })
        );
        assert_eq!(importer.worker_status(place), Some((*table, WorkerStatus::Finished, place)));
        let entries = store_of(&db, *table).iter_all(table.column(), None);
        let keys: Vec<u8> = entries.iter().map(|entry| entry.0[0]).collect();
        let expected: Vec<u8> = (0..2 * place as u8).collect();
        assert_eq!(keys, expected);
    }
    assert_eq!(importer.progress().combined(), CombinedProgress { processed: 120, total: 120 });
    assert_eq!(importer.worker_status(16), None);
    // the join point has the same to say
    assert_eq!(importer.run_workers(&mut db), Err(ImportError::AlreadyStarted));
}

#[test]
fn import_of_three_groups_and_none() {
    let (_sender, watcher) = watcher(State::Started);
    let mut snapshot = empty_snapshot();
    snapshot.insert(TableKind::Coins, groups(0, 3));
    let mut db = stores();
    let mut importer = SnapshotImporter::new(genesis(), snapshot, watcher);
    assert_eq!(importer.spawn_all(), Ok(()));
    // what is registered is there before any group is taken
    assert_eq!(
        importer.progress().progress(TableKind::Coins),
        Some(ProgressCounter { processed: 0, total: 3 })
    );
    assert!(importer.progress().is_complete(TableKind::Messages));
    importer.drive(&mut db);
    assert_eq!(
        importer.progress().progress(TableKind::Coins),
        Some(ProgressCounter { processed: 3, total: 3 })
    );
    assert_eq!(
        importer.progress().progress(TableKind::Messages),
        Some(ProgressCounter { processed: 0, total: 0 })
    );
    assert!(importer.progress().is_complete(TableKind::Coins));
    assert!(importer.progress().is_complete(TableKind::Messages));

    let (_sender, watcher) = self::watcher(State::Started);
    let mut snapshot = empty_snapshot();
    snapshot.insert(TableKind::Coins, groups(0, 3));
    let mut db = stores();
    assert_eq!(SnapshotImporter::import(&mut db, genesis(), snapshot, watcher), Ok(()));
    assert_eq!(written(&db, TableKind::Coins), 6);
    assert_eq!(written(&db, TableKind::Messages), 0);
}

#[test]
fn import_fails_with_the_decode_error_and_cancels_the_others() {
    let (_sender, watcher) = watcher(State::Started);
    let mut snapshot = empty_snapshot();
    // the table that fails on its second of five groups
    let mut failing = groups(0, 5);
    failing[1] = None;
    snapshot.insert(TableKind::ContractsState, failing);
    // one table before it and one after it, both with more groups than it gets through
    snapshot.insert(TableKind::Coins, groups(0, 5));
    snapshot.insert(TableKind::Messages, groups(0, 5));
    // a table that has finished before the failure
    snapshot.insert(TableKind::Transactions, groups(0, 1));
    let mut db = stores();
    let mut importer = SnapshotImporter::new(genesis(), snapshot, watcher);
    assert_eq!(importer.spawn_all(), Ok(()));
    importer.drive(&mut db);
    let failure = ImportError::Decode { table: TableKind::ContractsState, group: 1 };
    assert_eq!(
        importer.worker_status(TableKind::ContractsState.index()),
        Some((TableKind::ContractsState, WorkerStatus::Failed(failure), 1))
    );
    // started before the failing worker: one group in flight when the signal was set
    assert_eq!(
        importer.worker_status(TableKind::Coins.index()),
        Some((TableKind::Coins, WorkerStatus::Stopped, 2))
    );
    // started after the failing worker: stopped before its second group
    assert_eq!(
        importer.worker_status(TableKind::Messages.index()),
        Some((TableKind::Messages, WorkerStatus::Stopped, 1))
    );
    assert_eq!(
        importer.worker_status(TableKind::Transactions.index()),
        Some((TableKind::Transactions, WorkerStatus::Finished, 1))
    );
    assert_eq!(written(&db, TableKind::ContractsState), 2);
    assert_eq!(written(&db, TableKind::Coins), 4);
    assert_eq!(written(&db, TableKind::Messages), 2);
    assert_eq!(written(&db, TableKind::Transactions), 2);
    assert_eq!(
        importer.progress().progress(TableKind::Coins),
        Some(ProgressCounter { processed: 2, total: 5 })
    );

    let (_sender, watcher) = self::watcher(State::Started);
    let mut snapshot = empty_snapshot();
    let mut failing = groups(0, 5);
    failing[1] = None;
    snapshot.insert(TableKind::ContractsState, failing);
    snapshot.insert(TableKind::Coins, groups(0, 5));
    let mut db = stores();
    assert_eq!(SnapshotImporter::import(&mut db, genesis(), snapshot, watcher), Err(failure));
}

#[test]
fn import_reports_the_first_missing_table_and_writes_nothing() {
    let (_sender, watcher) = watcher(State::Started);
    let mut snapshot = SnapshotReader::new();
    for table in ALL_TABLES {
        if table != TableKind::FuelBlocks && table != TableKind::Transactions {
            snapshot.insert(table, groups(0, 2));
        }
    }
    let mut db = stores();
    assert_eq!(
        SnapshotImporter::import(&mut db, genesis(), snapshot, watcher),
        Err(ImportError::MissingTable { table: TableKind::FuelBlocks })
    );
    for table in ALL_TABLES {
        assert_eq!(written(&db, table), 0);
    }
}

#[test]
fn import_into_a_filled_store_is_refused() {
    let (_sender, watcher) = watcher(State::Started);
    let mut snapshot = empty_snapshot();
    snapshot.insert(TableKind::Coins, groups(0, 2));
    let mut db = stores();
    assert_eq!(SnapshotImporter::import(&mut db, genesis(), snapshot, watcher), Ok(()));
    let (_sender, watcher) = self::watcher(State::Started);
    let mut again = empty_snapshot();
    again.insert(TableKind::Coins, groups(0, 2));
    assert_eq!(
        SnapshotImporter::import(&mut db, genesis(), again, watcher),
        Err(ImportError::KeyAlreadyExists { table: TableKind::Coins, group: 0, entry: 0 })
    );
    assert_eq!(written(&db, TableKind::Coins), 4);
}

#[test]
fn import_stops_when_the_node_shuts_down() {
    let (sender, watcher) = watcher(State::Started);
    sender.send(State::Stopping).unwrap();
    let mut snapshot = empty_snapshot();
    snapshot.insert(TableKind::Coins, groups(0, 3));
    snapshot.insert(TableKind::SpentMessages, groups(0, 3));
    let mut db = stores();
    let mut importer = SnapshotImporter::new(genesis(), snapshot, watcher);
    assert_eq!(importer.spawn_all(), Ok(()));
    importer.drive(&mut db);
    assert_eq!(
        importer.worker_status(TableKind::Coins.index()),
        Some((TableKind::Coins, WorkerStatus::Stopped, 0))
    );
    assert_eq!(
        importer.worker_status(TableKind::Messages.index()),
        Some((TableKind::Messages, WorkerStatus::Finished, 0))
    );
    for table in ALL_TABLES {
        assert_eq!(written(&db, table), 0);
    }
    // a stop on the signal is no failure
    let (sender, watcher) = self::watcher(State::Started);
    sender.send(State::Stopped).unwrap();
    let mut snapshot = empty_snapshot();
    snapshot.insert(TableKind::Coins, groups(0, 3));
    assert_eq!(SnapshotImporter::import(&mut db, genesis(), snapshot, watcher), Ok(()));
    assert_eq!(written(&db, TableKind::Coins), 0);
}

#[test]
fn spawn_worker_prepares_one_table() {
    let (_sender, watcher) = watcher(State::Started);
    let mut snapshot = SnapshotReader::new();
    snapshot.insert(TableKind::Messages, groups(0, 2));
    let mut db = stores();
    let mut importer = SnapshotImporter::new(genesis(), snapshot, watcher);
    assert_eq!(
        importer.spawn_worker(TableKind::Coins),
        Err(ImportError::MissingTable { table: TableKind::Coins })
    );
    assert_eq!(importer.worker_count(), 0);
    assert_eq!(importer.spawn_worker(TableKind::Messages), Ok(()));
    assert_eq!(
        importer.spawn_worker(TableKind::Messages),
        Err(ImportError::MissingTable { table: TableKind::Messages })
    );
    assert_eq!(importer.worker_count(), 1);
    assert_eq!(importer.worker_status(0), Some((TableKind::Messages, WorkerStatus::Running, 0)));
    assert_eq!(written(&db, TableKind::Messages), 0);
    importer.drive(&mut db);
    assert_eq!(importer.worker_status(0), Some((TableKind::Messages, WorkerStatus::Finished, 2)));
    assert_eq!(written(&db, TableKind::Messages), 4);
    assert_eq!(importer.spawn_worker(TableKind::Coins), Err(ImportError::AlreadyStarted));
    // a second run changes nothing
    importer.drive(&mut db);
    assert_eq!(written(&db, TableKind::Messages), 4);
}

#[test]
fn stop_asked_by_any_part_of_the_signal() {
    assert!(!CancellationToken::stop_asked(false, false, false));
    assert!(CancellationToken::stop_asked(true, false, false));
    assert!(CancellationToken::stop_asked(false, true, false));
    assert!(CancellationToken::stop_asked(false, false, true));
    assert!(CancellationToken::stop_asked(true, true, true));
}

#[test]
fn task_manager_must_stop_on_its_own_signal_or_on_what_is_seen() {
    let (_sender, watcher) = watcher(State::Started);
    let mut manager: TaskManager<()> = TaskManager::new(watcher);
    manager.spawn();
    assert!(!manager.must_stop(false));
    assert!(manager.must_stop(true));
    assert!(manager.finish(0, Err(ImportError::AlreadyStarted)));
    assert!(manager.must_stop(false));
    assert!(manager.must_stop(true));
}

#[test]
fn task_manager_hands_out_its_own_signal() {
    let (sender, watcher) = watcher(State::Started);
    let manager: TaskManager<()> = TaskManager::new(watcher);
    let first = manager.token();
    let second = manager.token();
    assert!(!first.is_cancelled());
    assert!(!manager.is_cancelled());
    // what one holder sets, the manager and every other holder see
    first.cancel();
    assert!(manager.is_cancelled());
    assert!(second.is_cancelled());
    assert!(manager.token().is_cancelled());

    // every token follows the node that the manager was made for
    let other: TaskManager<()> = TaskManager::new(StateWatcher::from(sender.subscribe()));
    let token = other.token();
    assert!(!token.is_cancelled());
    assert!(!other.is_cancelled());
    sender.send(State::Stopping).unwrap();
    assert!(token.is_cancelled());
    assert!(other.is_cancelled());
    assert!(other.token().is_cancelled());
}
