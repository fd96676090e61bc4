//! An ordered, column-scoped key/value store held in memory.
//!
//! Every column is a map from byte-string keys to byte-string values. Values
//! are stored as the raw bytes handed in: nothing is framed or prefixed, so
//! the stored length of a value is the length of what was written.

use crate::key_order::{compare_keys, has_prefix, precedes, starts_with, KeyOrder};
use crate::key_order::{lemma_precedes_asymmetric, lemma_precedes_irreflexive, lemma_precedes_transitive};
use vstd::prelude::*;

pub mod contracts;

verus! {

/// The logical partitions of the store.
#[derive(Debug, Clone, Copy, PartialEq, Eq, Structural)]
pub enum Column {
    Coins,
    ContractsAssets,
    ContractsInfo,
    ContractsLatestUtxo,
    ContractsRawCode,
    ContractsState,
    FuelBlocks,
    Messages,
    ProcessedTransactions,
    SealedBlockConsensus,
    Transactions,
    OldFuelBlockConsensus,
    OldFuelBlocks,
    OldTransactions,
    OwnedTransactions,
    SpentMessages,
    TransactionStatuses,
    GasPriceMetadata,
}

impl Column {
    /// The place of the column in the store's layout.
    pub open spec fn ordinal(self) -> int {
        match self {
            Column::Coins => 0,
            Column::ContractsAssets => 1,
            Column::ContractsInfo => 2,
            Column::ContractsLatestUtxo => 3,
            Column::ContractsRawCode => 4,
            Column::ContractsState => 5,
            Column::FuelBlocks => 6,
            Column::Messages => 7,
            Column::ProcessedTransactions => 8,
            Column::SealedBlockConsensus => 9,
            Column::Transactions => 10,
            Column::OldFuelBlockConsensus => 11,
            Column::OldFuelBlocks => 12,
            Column::OldTransactions => 13,
            Column::OwnedTransactions => 14,
            Column::SpentMessages => 15,
            Column::TransactionStatuses => 16,
            Column::GasPriceMetadata => 17,
        }
    }

    /// The place of the column in the store's layout.
    pub fn index(&self) -> (index: u8)
        ensures
            index == self.ordinal(),
    {
        match self {
            Column::Coins => 0,
            Column::ContractsAssets => 1,
            Column::ContractsInfo => 2,
            Column::ContractsLatestUtxo => 3,
            Column::ContractsRawCode => 4,
            Column::ContractsState => 5,
            Column::FuelBlocks => 6,
            Column::Messages => 7,
            Column::ProcessedTransactions => 8,
            Column::SealedBlockConsensus => 9,
            Column::Transactions => 10,
            Column::OldFuelBlockConsensus => 11,
            Column::OldFuelBlocks => 12,
            Column::OldTransactions => 13,
            Column::OwnedTransactions => 14,
            Column::SpentMessages => 15,
            Column::TransactionStatuses => 16,
            Column::GasPriceMetadata => 17,
        }
    }
}

/// Two columns with the same place in the layout are the same column.
pub proof fn lemma_ordinal_injective(a: Column, b: Column)
    requires
        a.ordinal() == b.ordinal(),
    ensures
        a == b,
{
}

/// Why an access to the store failed.
#[derive(Debug, Clone, Copy, PartialEq, Eq, Structural)]
pub enum DatabaseError {
    /// The buffer handed to a read cannot hold the stored value.
    BufferTooSmall { required: usize, provided: usize },
    /// A stored value is not of the shape that its table gives to its values.
    Codec,
    /// A stored key is shorter than the identifier that it begins with.
    KeyLength { expected: usize, found: usize },
}

/// One stored entry.
struct Row {
    column: Column,
    key: Vec<u8>,
    value: Vec<u8>,
}

/// Whether the slot `(column, key)` sorts before the slot `(other_column, other_key)`.
spec fn slot_precedes(column: Column, key: Seq<u8>, other_column: Column, other_key: Seq<u8>) -> bool {
    column.ordinal() < other_column.ordinal() || (column == other_column && precedes(key, other_key))
}

proof fn lemma_slot_transitive(c1: Column, k1: Seq<u8>, c2: Column, k2: Seq<u8>, c3: Column, k3: Seq<u8>)
    requires
        slot_precedes(c1, k1, c2, k2),
        slot_precedes(c2, k2, c3, k3),
    ensures
        slot_precedes(c1, k1, c3, k3),
{
    if c1 == c2 && c2 == c3 {
        lemma_precedes_transitive(k1, k2, k3);
    }
}

proof fn lemma_slot_irreflexive(c: Column, k: Seq<u8>)
    ensures
        !slot_precedes(c, k, c, k),
{
    lemma_precedes_irreflexive(k);
}

/// The store: the entries of all columns, ordered by column and key.
pub struct Database {
    rows: Vec<Row>,
}

impl Database {
    #[verifier::type_invariant]
    spec fn ordered(self) -> bool {
        rows_ordered(self.rows@)
    }

    /// What a column holds: its keys with their values.
    pub closed spec fn table(self, column: Column) -> Map<Seq<u8>, Seq<u8>> {
        rows_table(self.rows@, column)
    }

    /// An empty store.
    pub fn new() -> (database: Database)
        ensures
            forall|column: Column| #[trigger] database.table(column) == Map::<Seq<u8>, Seq<u8>>::empty(),
    {
        let database = Database { rows: Vec::new() };
        proof {
            assert forall|column: Column| #[trigger]
                database.table(column) == Map::<Seq<u8>, Seq<u8>>::empty() by {
                assert(database.table(column) =~= Map::<Seq<u8>, Seq<u8>>::empty());
            }
        }
        database
    }
}

impl Default for Database {
    /// An empty store.
    fn default() -> (database: Database)
        ensures
            forall|column: Column| #[trigger] database.table(column) == Map::<Seq<u8>, Seq<u8>>::empty(),
    {
        Database::new()
    }
}

/// A copy of the bytes of `bytes`.
pub fn copy_bytes(bytes: &[u8]) -> (copy: Vec<u8>)
    ensures
        copy@ == bytes@,
{
    let mut copy: Vec<u8> = Vec::with_capacity(bytes.len());
    let mut i: usize = 0;
    while i < bytes.len()
        invariant
            i <= bytes.len(),
            copy@ == bytes@.take(i as int),
        decreases bytes.len() - i,
    {
        copy.push(bytes[i]);
        assert(bytes@.take(i + 1) =~= bytes@.take(i as int).push(bytes@[i as int]));
        i += 1;
    }
    assert(bytes@.take(bytes@.len() as int) =~= bytes@);
    copy
}

impl Database {
    /// Where the entry of `key` in `column` stands, or would have to stand,
    /// and whether it is there.
    fn find(&self, key: &[u8], column: Column) -> (place: (usize, bool))
        ensures
            place.0 <= self.rows@.len(),
            forall|j: int|
                0 <= j < place.0 ==> slot_precedes(
                    (#[trigger] self.rows@[j]).column,
                    self.rows@[j].key@,
                    column,
                    key@,
                ),
            forall|j: int|
                place.0 + (if place.1 { 1int } else { 0int }) <= j < self.rows@.len() ==> slot_precedes(
                    column,
                    key@,
                    (#[trigger] self.rows@[j]).column,
                    self.rows@[j].key@,
                ),
            place.1 ==> row_is(self.rows@, place.0 as int, column, key@),
            place.1 == self.table(column).dom().contains(key@),
    {
        proof {
            use_type_invariant(self);
        }
        let wanted = column.index();
        let mut i: usize = 0;
        let mut found = false;
        while i < self.rows.len()
            invariant_except_break
                !found,
            invariant
                i <= self.rows@.len(),
                wanted == column.ordinal(),
                rows_ordered(self.rows@),
                forall|j: int|
                    0 <= j < i ==> slot_precedes(
                        (#[trigger] self.rows@[j]).column,
                        self.rows@[j].key@,
                        column,
                        key@,
                    ),
            ensures
                i <= self.rows@.len(),
                found ==> row_is(self.rows@, i as int, column, key@),
                !found && i < self.rows@.len() ==> slot_precedes(
                    column,
                    key@,
                    self.rows@[i as int].column,
                    self.rows@[i as int].key@,
                ),
            decreases self.rows.len() - i,
        {
            let here = self.rows[i].column.index();
            if here > wanted {
                break ;
            }
            if here == wanted {
                proof {
                    lemma_ordinal_injective(self.rows@[i as int].column, column);
                }
                match compare_keys(self.rows[i].key.as_slice(), key) {
                    KeyOrder::Before => {},
                    KeyOrder::Same => {
                        found = true;
                        break ;
                    },
                    KeyOrder::After => {
                        break ;
                    },
                }
            }
            i += 1;
        }
        proof {
            let rows = self.rows@;
            let first_after = i + (if found { 1int } else { 0int });
            assert forall|j: int| first_after <= j < rows.len() implies slot_precedes(
                column,
                key@,
                (#[trigger] rows[j]).column,
                rows[j].key@,
            ) by {
                if j > i {
                    assert(slot_precedes(rows[i as int].column, rows[i as int].key@, rows[j].column, rows[j].key@));
                    if !found {
                        lemma_slot_transitive(
                            column,
                            key@,
                            rows[i as int].column,
                            rows[i as int].key@,
                            rows[j].column,
                            rows[j].key@,
                        );
                    }
                }
            }
            if !found {
                lemma_slot_irreflexive(column, key@);
                if rows_table(rows, column).dom().contains(key@) {
                    let at = choose|at: int| row_is(rows, at, column, key@);
                    // the entry stands neither before nor after its own slot
                    assert(row_is(rows, at, column, key@));
                    if at < i {
                        assert(slot_precedes(rows[at].column, rows[at].key@, column, key@));
                    } else {
                        assert(slot_precedes(column, key@, rows[at].column, rows[at].key@));
                    }
                }
            }
        }
        (i, found)
    }

    /// Whether `column` holds an entry for `key`.
    pub fn contains_key(&self, key: &[u8], column: Column) -> (present: bool)
        ensures
            present == self.table(column).dom().contains(key@),
    {
        self.find(key, column).1
    }

    /// The stored length of the value of `key` in `column`.
    pub fn size_of_value(&self, key: &[u8], column: Column) -> (size: Option<usize>)
        ensures
            size == (if self.table(column).dom().contains(key@) {
                Some(self.table(column)[key@].len() as usize)
            } else {
                None
            }),
            size is Some ==> size->0 == self.table(column)[key@].len(),
    {
        let (at, found) = self.find(key, column);
        if found {
            proof {
                use_type_invariant(self);
                lemma_row_in_table(self.rows@, at as int);
            }
            Some(self.rows[at].value.len())
        } else {
            None
        }
    }

    /// A copy of the value of `key` in `column`.
    pub fn read_alloc(&self, key: &[u8], column: Column) -> (value: Option<Vec<u8>>)
        ensures
            value is Some == self.table(column).dom().contains(key@),
            value is Some ==> value->0@ == self.table(column)[key@],
    {
        let (at, found) = self.find(key, column);
        if found {
            proof {
                use_type_invariant(self);
                lemma_row_in_table(self.rows@, at as int);
            }
            Some(copy_bytes(self.rows[at].value.as_slice()))
        } else {
            None
        }
    }

    /// Stores `buf` as the value of `key` in `column`, in place of any value
    /// that was there, and returns the number of bytes stored.
    pub fn write(&mut self, key: &[u8], column: Column, buf: &[u8]) -> (written: usize)
        ensures
            written == buf@.len(),
            final(self).table(column) == old(self).table(column).insert(key@, buf@),
            forall|other: Column|
                other != column ==> #[trigger] final(self).table(other) == old(self).table(other),
    {
        self.replace(key, column, buf).0
    }

    /// Stores `buf` as the value of `key` in `column` and returns the number
    /// of bytes stored together with the value that was there before.
    pub fn replace(&mut self, key: &[u8], column: Column, buf: &[u8]) -> (outcome: (
        usize,
        Option<Vec<u8>>,
    ))
        ensures
            outcome.0 == buf@.len(),
            outcome.1 is Some == old(self).table(column).dom().contains(key@),
            outcome.1 is Some ==> outcome.1->0@ == old(self).table(column)[key@],
            final(self).table(column) == old(self).table(column).insert(key@, buf@),
            forall|other: Column|
                other != column ==> #[trigger] final(self).table(other) == old(self).table(other),
    {
        proof {
            use_type_invariant(&*self);
        }
        let (at, found) = self.find(key, column);
        let ghost before = self.rows@;
        let mut rows: Vec<Row> = Vec::new();
        core::mem::swap(&mut self.rows, &mut rows);
        let previous = if found {
            proof {
                lemma_row_in_table(before, at as int);
                lemma_rows_removed(before, at as int);
            }
            let row = rows.remove(at);
            Some(row.value)
        } else {
            None
        };
        let ghost between = rows@;
        let row = Row { column, key: copy_bytes(key), value: copy_bytes(buf) };
        proof {
            assert forall|j: int| 0 <= j < at implies slot_precedes(
                (#[trigger] between[j]).column,
                between[j].key@,
                column,
                key@,
            ) by {
                assert(between[j] == before[j]);
            }
            assert forall|j: int| at <= j < between.len() implies slot_precedes(
                column,
                key@,
                (#[trigger] between[j]).column,
                between[j].key@,
            ) by {
                if found {
                    assert(between[j] == before[j + 1]);
                } else {
                    assert(between[j] == before[j]);
                }
            }
            lemma_rows_inserted(between, at as int, row);
            assert forall|other: Column|
                rows_table(between.insert(at as int, row), other) == (if other == column {
                    rows_table(before, other).insert(key@, buf@)
                } else {
                    rows_table(before, other)
                }) by {
                if other == column && found {
                    assert(rows_table(before, other).remove(key@).insert(key@, buf@) =~= rows_table(
                        before,
                        other,
                    ).insert(key@, buf@));
                } else if other == column {
                    assert(rows_table(before, other).remove(key@) =~= rows_table(before, other));
                }
            }
        }
        rows.insert(at, row);
        core::mem::swap(&mut self.rows, &mut rows);
        (buf.len(), previous)
    }

    /// Removes the entry of `key` from `column` and returns its value.
    pub fn take(&mut self, key: &[u8], column: Column) -> (value: Option<Vec<u8>>)
        ensures
            value is Some == old(self).table(column).dom().contains(key@),
            value is Some ==> value->0@ == old(self).table(column)[key@],
            final(self).table(column) == old(self).table(column).remove(key@),
            forall|other: Column|
                other != column ==> #[trigger] final(self).table(other) == old(self).table(other),
    {
        proof {
            use_type_invariant(&*self);
        }
        let (at, found) = self.find(key, column);
        if found {
            proof {
                lemma_row_in_table(self.rows@, at as int);
                lemma_rows_removed(self.rows@, at as int);
            }
            let mut rows: Vec<Row> = Vec::new();
            core::mem::swap(&mut self.rows, &mut rows);
            let row = rows.remove(at);
            core::mem::swap(&mut self.rows, &mut rows);
            Some(row.value)
        } else {
            assert(self.table(column).remove(key@) =~= self.table(column));
            None
        }
    }
}

/// The direction in which a column is walked.
#[derive(Debug, Clone, Copy, PartialEq, Eq, Structural)]
pub enum IterDirection {
    /// From the smallest key to the largest.
    Forward,
    /// From the largest key to the smallest.
    Reverse,
}

/// The bytes behind an optional slice.
pub open spec fn bytes_of(slice: Option<&[u8]>) -> Option<Seq<u8>> {
    match slice {
        Some(bytes) => Some(bytes@),
        None => None,
    }
}

/// The direction of a walk for which none was given.
pub open spec fn direction_of(direction: Option<IterDirection>) -> IterDirection {
    match direction {
        Some(direction) => direction,
        None => IterDirection::Forward,
    }
}

/// Whether a walk in `direction` that is limited to `prefix` and begins at
/// `start` comes by `key`.
pub open spec fn in_range(
    key: Seq<u8>,
    prefix: Option<Seq<u8>>,
    start: Option<Seq<u8>>,
    direction: IterDirection,
) -> bool {
    &&& prefix is Some ==> has_prefix(key, prefix->0)
    &&& start is Some ==> match direction {
        IterDirection::Forward => !precedes(key, start->0),
        IterDirection::Reverse => !precedes(start->0, key),
    }
}

/// Whether `entries` is the walk over `table` in `direction`, limited to
/// `prefix` and beginning at `start`: every entry is in the table and in
/// range, every key of the table that is in range has its entry, and the
/// entries stand in the order of the walk.
pub open spec fn is_scan(
    entries: Seq<(Vec<u8>, Vec<u8>)>,
    table: Map<Seq<u8>, Seq<u8>>,
    prefix: Option<Seq<u8>>,
    start: Option<Seq<u8>>,
    direction: IterDirection,
) -> bool {
    &&& forall|i: int|
        0 <= i < entries.len() ==> table.contains_pair((#[trigger] entries[i]).0@, entries[i].1@)
            && in_range(entries[i].0@, prefix, start, direction)
    &&& forall|key: Seq<u8>| #[trigger]
        table.dom().contains(key) && in_range(key, prefix, start, direction) ==> exists|i: int|
            0 <= i < entries.len() && (#[trigger] entries[i]).0@ == key
    &&& forall|i: int, j: int|
        0 <= i < j < entries.len() ==> match direction {
            IterDirection::Forward => precedes((#[trigger] entries[i]).0@, (#[trigger] entries[j]).0@),
            IterDirection::Reverse => precedes(entries[j].0@, entries[i].0@),
        }
}

/// Whether a walk in `direction` that is limited to `prefix` and begins at
/// `start` comes by `key`.
fn key_in_range(key: &[u8], prefix: Option<&[u8]>, start: Option<&[u8]>, direction: IterDirection) -> (yes:
    bool)
    ensures
        yes == in_range(key@, bytes_of(prefix), bytes_of(start), direction),
{
    let prefixed = match prefix {
        Some(prefix) => starts_with(key, prefix),
        None => true,
    };
    let reached = match start {
        Some(start) => {
            let order = compare_keys(key, start);
            proof {
                lemma_precedes_asymmetric(key@, start@);
                lemma_precedes_irreflexive(key@);
            }
            match direction {
                IterDirection::Forward => order != KeyOrder::Before,
                IterDirection::Reverse => order != KeyOrder::After,
            }
        },
        None => true,
    };
    prefixed && reached
}

/// The entries in the opposite order.
fn reversed(entries: Vec<(Vec<u8>, Vec<u8>)>) -> (turned: Vec<(Vec<u8>, Vec<u8>)>)
    ensures
        turned@.len() == entries@.len(),
        forall|i: int| 0 <= i < turned@.len() ==> #[trigger] turned@[i] == entries@[entries@.len() - 1 - i],
{
    let mut entries = entries;
    let ghost all = entries@;
    let mut turned: Vec<(Vec<u8>, Vec<u8>)> = Vec::new();
    while entries.len() > 0
        invariant
            entries@.len() + turned@.len() == all.len(),
            entries@ == all.take(entries@.len() as int),
            forall|i: int| 0 <= i < turned@.len() ==> #[trigger] turned@[i] == all[all.len() - 1 - i],
        decreases entries@.len(),
    {
        let last = entries.pop();
        match last {
            Some(entry) => {
                turned.push(entry);
            },
            None => {},
        }
    }
    turned
}

impl Database {
    /// Copies the value of `key` in `column` to the front of `buf` and returns
    /// its length. A value that `buf` cannot hold is an error, and `buf` stays
    /// as it was.
    pub fn read(&self, key: &[u8], column: Column, buf: &mut [u8]) -> (outcome: Result<
        Option<usize>,
        DatabaseError,
    >)
        ensures
            final(buf)@.len() == old(buf)@.len(),
            !self.table(column).dom().contains(key@) ==> outcome == Ok::<Option<usize>, DatabaseError>(
                None,
            ) && final(buf)@ == old(buf)@,
            self.table(column).dom().contains(key@) && self.table(column)[key@].len() > old(buf)@.len()
                ==> outcome == Err::<Option<usize>, DatabaseError>(
                DatabaseError::BufferTooSmall {
                    required: self.table(column)[key@].len() as usize,
                    provided: old(buf)@.len() as usize,
                },
            ) && final(buf)@ == old(buf)@,
            self.table(column).dom().contains(key@) && self.table(column)[key@].len() <= old(buf)@.len()
                ==> outcome == Ok::<Option<usize>, DatabaseError>(
                Some(self.table(column)[key@].len() as usize),
            ) && final(buf)@ == self.table(column)[key@] + old(buf)@.skip(
                self.table(column)[key@].len() as int,
            ),
    {
        let (at, found) = self.find(key, column);
        if !found {
            return Ok(None);
        }
        proof {
            use_type_invariant(self);
            lemma_row_in_table(self.rows@, at as int);
        }
        let value = self.rows[at].value.as_slice();
        let size = value.len();
        if size > buf.len() {
            return Err(DatabaseError::BufferTooSmall { required: size, provided: buf.len() });
        }
        let mut i: usize = 0;
        while i < size
            invariant
                i <= size,
                size == value@.len(),
                size <= buf@.len(),
                buf@.len() == old(buf)@.len(),
                buf@ == value@.take(i as int) + old(buf)@.skip(i as int),
            decreases size - i,
        {
            buf[i] = value[i];
            assert(buf@ =~= value@.take(i + 1) + old(buf)@.skip(i + 1));
            i += 1;
        }
        assert(value@.take(size as int) =~= value@);
        Ok(Some(size))
    }

    /// The entries of `column` from the smallest key to the largest, or the
    /// other way round.
    pub fn iter_all(&self, column: Column, direction: Option<IterDirection>) -> (entries: Vec<
        (Vec<u8>, Vec<u8>),
    >)
        ensures
            is_scan(entries@, self.table(column), None, None, direction_of(direction)),
    {
        self.iter_all_filtered(column, None, None, direction)
    }

    /// The entries of `column` whose key starts with `prefix`, from the
    /// smallest key to the largest.
    pub fn iter_all_by_prefix(&self, column: Column, prefix: Option<&[u8]>) -> (entries: Vec<
        (Vec<u8>, Vec<u8>),
    >)
        ensures
            is_scan(entries@, self.table(column), bytes_of(prefix), None, IterDirection::Forward),
    {
        self.iter_all_filtered(column, prefix, None, None)
    }

    /// The entries of `column` that a walk in `direction` comes by when it is
    /// limited to the keys that start with `prefix` and begins at `start`.
    /// Without a direction the walk goes forward.
    pub fn iter_all_filtered(
        &self,
        column: Column,
        prefix: Option<&[u8]>,
        start: Option<&[u8]>,
        direction: Option<IterDirection>,
    ) -> (entries: Vec<(Vec<u8>, Vec<u8>)>)
        ensures
            is_scan(
                entries@,
                self.table(column),
                bytes_of(prefix),
                bytes_of(start),
                direction_of(direction),
            ),
    {
        let direction = match direction {
            Some(direction) => direction,
            None => IterDirection::Forward,
        };
        proof {
            use_type_invariant(self);
        }
        let wanted = column.index();
        let mut entries: Vec<(Vec<u8>, Vec<u8>)> = Vec::new();
        let ghost mut source: Seq<int> = Seq::empty();
        let mut i: usize = 0;
        while i < self.rows.len()
            invariant
                i <= self.rows@.len(),
                wanted == column.ordinal(),
                rows_ordered(self.rows@),
                source.len() == entries@.len(),
                forall|n: int|
                    0 <= n < source.len() ==> 0 <= #[trigger] source[n] < i && row_is(
                        self.rows@,
                        source[n],
                        column,
                        entries@[n].0@,
                    ) && entries@[n].1@ == self.rows@[source[n]].value@ && in_range(
                        entries@[n].0@,
                        bytes_of(prefix),
                        bytes_of(start),
                        direction,
                    ),
                forall|n: int, m: int| 0 <= n < m < source.len() ==> #[trigger] source[n] < #[trigger] source[m],
                forall|j: int|
                    0 <= j < i && (#[trigger] self.rows@[j]).column == column && in_range(
                        self.rows@[j].key@,
                        bytes_of(prefix),
                        bytes_of(start),
                        direction,
                    ) ==> exists|n: int| 0 <= n < source.len() && #[trigger] source[n] == j,
            decreases self.rows.len() - i,
        {
            let row = &self.rows[i];
            if row.column.index() == wanted && key_in_range(row.key.as_slice(), prefix, start, direction) {
                proof {
                    lemma_ordinal_injective(row.column, column);
                }
                let ghost earlier = source;
                entries.push((copy_bytes(row.key.as_slice()), copy_bytes(row.value.as_slice())));
                proof {
                    source = source.push(i as int);
                    assert forall|j: int|
                        0 <= j < i + 1 && (#[trigger] self.rows@[j]).column == column && in_range(
                            self.rows@[j].key@,
                            bytes_of(prefix),
                            bytes_of(start),
                            direction,
                        ) implies exists|n: int| 0 <= n < source.len() && #[trigger] source[n] == j by {
                        if j < i {
                            let n = choose|n: int| 0 <= n < earlier.len() && #[trigger] earlier[n] == j;
                            assert(source[n] == j);
                        } else {
                            assert(source[earlier.len() as int] == j);
                        }
                    }
                }
            } else {
                proof {
                    if row.column.ordinal() == column.ordinal() {
                        lemma_ordinal_injective(row.column, column);
                    }
                }
            }
            i += 1;
        }
        proof {
            let rows = self.rows@;
            let table = self.table(column);
            assert forall|n: int| 0 <= n < entries@.len() implies table.contains_pair(
                (#[trigger] entries@[n]).0@,
                entries@[n].1@,
            ) && in_range(entries@[n].0@, bytes_of(prefix), bytes_of(start), direction) by {
                lemma_row_in_table(rows, source[n]);
            }
            assert forall|key: Seq<u8>| #[trigger]
                table.dom().contains(key) && in_range(
                    key,
                    bytes_of(prefix),
                    bytes_of(start),
                    direction,
                ) implies exists|n: int| 0 <= n < entries@.len() && (#[trigger] entries@[n]).0@ == key by {
                let j = choose|j: int| row_is(rows, j, column, key);
                assert(rows[j].column == column);
                let n = choose|n: int| 0 <= n < source.len() && #[trigger] source[n] == j;
                assert(entries@[n].0@ == key);
            }
            assert forall|n: int, m: int| 0 <= n < m < entries@.len() implies precedes(
                (#[trigger] entries@[n]).0@,
                (#[trigger] entries@[m]).0@,
            ) by {
                assert(source[n] < source[m]);
                assert(slot_precedes(
                    rows[source[n]].column,
                    rows[source[n]].key@,
                    rows[source[m]].column,
                    rows[source[m]].key@,
                ));
            }
        }
        match direction {
            IterDirection::Forward => entries,
            IterDirection::Reverse => {
                let ghost forward = entries@;
                let turned = reversed(entries);
                proof {
                    let table = self.table(column);
                    assert forall|n: int| 0 <= n < turned@.len() implies table.contains_pair(
                        (#[trigger] turned@[n]).0@,
                        turned@[n].1@,
                    ) && in_range(turned@[n].0@, bytes_of(prefix), bytes_of(start), direction) by {
                        assert(turned@[n] == forward[forward.len() - 1 - n]);
                    }
                    assert forall|key: Seq<u8>| #[trigger]
                        table.dom().contains(key) && in_range(
                            key,
                            bytes_of(prefix),
                            bytes_of(start),
                            direction,
                        ) implies exists|n: int| 0 <= n < turned@.len() && (#[trigger] turned@[n]).0@ == key by {
                        let n = choose|n: int| 0 <= n < forward.len() && (#[trigger] forward[n]).0@ == key;
                        assert(turned@[forward.len() - 1 - n] == forward[n]);
                    }
                    assert forall|n: int, m: int| 0 <= n < m < turned@.len() implies precedes(
                        (#[trigger] turned@[m]).0@,
                        (#[trigger] turned@[n]).0@,
                    ) by {
                        assert(turned@[m] == forward[forward.len() - 1 - m]);
                        assert(turned@[n] == forward[forward.len() - 1 - n]);
                    }
                }
                turned
            },
        }
    }
}

/// Whether the rows are strictly ordered by column and key.
spec fn rows_ordered(rows: Seq<Row>) -> bool {
    forall|i: int, j: int|
        0 <= i < j < rows.len() ==> slot_precedes(
            #[trigger] rows[i].column,
            rows[i].key@,
            #[trigger] rows[j].column,
            rows[j].key@,
        )
}

/// Whether the row at `i` is the entry of `key` in `column`.
spec fn row_is(rows: Seq<Row>, i: int, column: Column, key: Seq<u8>) -> bool {
    0 <= i < rows.len() && rows[i].column == column && rows[i].key@ == key
}

/// The keys and values that the rows give to a column.
spec fn rows_table(rows: Seq<Row>, column: Column) -> Map<Seq<u8>, Seq<u8>> {
    Map::new(
        |key: Seq<u8>| exists|i: int| row_is(rows, i, column, key),
        |key: Seq<u8>| rows[choose|i: int| row_is(rows, i, column, key)].value@,
    )
}

/// In ordered rows an entry is found at one place only.
proof fn lemma_row_unique(rows: Seq<Row>, i: int, j: int, column: Column, key: Seq<u8>)
    requires
        rows_ordered(rows),
        row_is(rows, i, column, key),
        row_is(rows, j, column, key),
    ensures
        i == j,
{
    lemma_slot_irreflexive(column, key);
    if i < j {
        assert(slot_precedes(rows[i].column, rows[i].key@, rows[j].column, rows[j].key@));
    } else if j < i {
        assert(slot_precedes(rows[j].column, rows[j].key@, rows[i].column, rows[i].key@));
    }
}

/// The row that holds an entry gives the table its value.
proof fn lemma_row_in_table(rows: Seq<Row>, i: int)
    requires
        rows_ordered(rows),
        0 <= i < rows.len(),
    ensures
        rows_table(rows, rows[i].column).dom().contains(rows[i].key@),
        rows_table(rows, rows[i].column)[rows[i].key@] == rows[i].value@,
{
    let column = rows[i].column;
    let key = rows[i].key@;
    assert(row_is(rows, i, column, key));
    let j = choose|j: int| row_is(rows, j, column, key);
    lemma_row_unique(rows, i, j, column, key);
}

/// What the tables hold after the row at `at` was taken out.
proof fn lemma_rows_removed(rows: Seq<Row>, at: int)
    requires
        rows_ordered(rows),
        0 <= at < rows.len(),
    ensures
        rows_ordered(rows.remove(at)),
        forall|other: Column|
            #[trigger] rows_table(rows.remove(at), other) == (if other == rows[at].column {
                rows_table(rows, other).remove(rows[at].key@)
            } else {
                rows_table(rows, other)
            }),
{
    let after = rows.remove(at);
    let column = rows[at].column;
    let key = rows[at].key@;
    assert forall|i: int| 0 <= i < after.len() implies #[trigger] after[i] == rows[if i < at {
        i
    } else {
        i + 1
    }] by {}
    assert(rows_ordered(after)) by {
        assert forall|i: int, j: int| 0 <= i < j < after.len() implies slot_precedes(
            #[trigger] after[i].column,
            after[i].key@,
            #[trigger] after[j].column,
            after[j].key@,
        ) by {
            let i0 = if i < at { i } else { i + 1 };
            let j0 = if j < at { j } else { j + 1 };
            assert(slot_precedes(rows[i0].column, rows[i0].key@, rows[j0].column, rows[j0].key@));
        }
    }
    assert forall|other: Column|
        #[trigger] rows_table(after, other) == (if other == column {
            rows_table(rows, other).remove(key)
        } else {
            rows_table(rows, other)
        }) by {
        let expected = if other == column {
            rows_table(rows, other).remove(key)
        } else {
            rows_table(rows, other)
        };
        assert forall|k: Seq<u8>| #[trigger]
            rows_table(after, other).dom().contains(k) implies expected.dom().contains(k) && expected[k]
            == rows_table(after, other)[k] by {
            let i = choose|i: int| row_is(after, i, other, k);
            let i0 = if i < at { i } else { i + 1 };
            assert(row_is(rows, i0, other, k));
            lemma_row_in_table(rows, i0);
            lemma_row_in_table(after, i);
            if other == column && k == key {
                lemma_row_unique(rows, i0, at, other, k);
            }
        }
        assert forall|k: Seq<u8>| #[trigger]
            expected.dom().contains(k) implies rows_table(after, other).dom().contains(k) by {
            let j = choose|j: int| row_is(rows, j, other, k);
            assert(row_is(rows, j, other, k));
            assert(j != at);
            let i = if j < at { j } else { j - 1 };
            assert(row_is(after, i, other, k));
        }
        assert(rows_table(after, other) =~= expected);
    }
}

/// What the tables hold after `row` was put in at `at`, its place in the order.
proof fn lemma_rows_inserted(rows: Seq<Row>, at: int, row: Row)
    requires
        rows_ordered(rows),
        0 <= at <= rows.len(),
        forall|j: int|
            0 <= j < at ==> slot_precedes((#[trigger] rows[j]).column, rows[j].key@, row.column, row.key@),
        forall|j: int|
            at <= j < rows.len() ==> slot_precedes(
                row.column,
                row.key@,
                (#[trigger] rows[j]).column,
                rows[j].key@,
            ),
    ensures
        rows_ordered(rows.insert(at, row)),
        forall|other: Column|
            #[trigger] rows_table(rows.insert(at, row), other) == (if other == row.column {
                rows_table(rows, other).insert(row.key@, row.value@)
            } else {
                rows_table(rows, other)
            }),
{
    let after = rows.insert(at, row);
    assert(after.len() == rows.len() + 1);
    assert(after[at] == row);
    assert forall|i: int| 0 <= i < after.len() && i != at implies #[trigger] after[i] == rows[if i < at {
        i
    } else {
        i - 1
    }] by {}
    assert(rows_ordered(after)) by {
        assert forall|i: int, j: int| 0 <= i < j < after.len() implies slot_precedes(
            #[trigger] after[i].column,
            after[i].key@,
            #[trigger] after[j].column,
            after[j].key@,
        ) by {
            let i0 = if i < at { i } else { i - 1 };
            let j0 = if j < at { j } else { j - 1 };
            if i == at {
                assert(slot_precedes(row.column, row.key@, rows[j0].column, rows[j0].key@));
            } else if j == at {
                assert(slot_precedes(rows[i0].column, rows[i0].key@, row.column, row.key@));
            } else {
                assert(slot_precedes(rows[i0].column, rows[i0].key@, rows[j0].column, rows[j0].key@));
            }
        }
    }
    lemma_slot_irreflexive(row.column, row.key@);
    assert forall|other: Column|
        #[trigger] rows_table(after, other) == (if other == row.column {
            rows_table(rows, other).insert(row.key@, row.value@)
        } else {
            rows_table(rows, other)
        }) by {
        let expected = if other == row.column {
            rows_table(rows, other).insert(row.key@, row.value@)
        } else {
            rows_table(rows, other)
        };
        assert forall|k: Seq<u8>| #[trigger]
            rows_table(after, other).dom().contains(k) implies expected.dom().contains(k) && expected[k]
            == rows_table(after, other)[k] by {
            let i = choose|i: int| row_is(after, i, other, k);
            lemma_row_in_table(after, i);
            if i != at {
                let i0 = if i < at { i } else { i - 1 };
                assert(row_is(rows, i0, other, k));
                lemma_row_in_table(rows, i0);
                assert(!(other == row.column && k == row.key@));
            }
        }
        assert forall|k: Seq<u8>| #[trigger]
            expected.dom().contains(k) implies rows_table(after, other).dom().contains(k) by {
            if other == row.column && k == row.key@ {
                assert(row_is(after, at, other, k));
            } else {
                let j = choose|j: int| row_is(rows, j, other, k);
                assert(row_is(rows, j, other, k));
                let i = if j < at { j } else { j + 1 };
                assert(row_is(after, i, other, k));
            }
        }
        assert(rows_table(after, other) =~= expected);
    }
}

} // verus!
