//! Progress of an import, per table and over all tables.

use crate::genesis::table::{lemma_ordinal_is_place, TableKind, TABLE_COUNT};
use vstd::prelude::*;

verus! {

/// How many groups of a table have been imported, out of how many.
#[derive(Debug, Clone, Copy, PartialEq, Eq, Structural)]
pub struct ProgressCounter {
    pub processed: usize,
    pub total: usize,
}

impl ProgressCounter {
    /// Whether nothing is left to import. A table without groups is complete
    /// from the start.
    pub open spec fn complete(self) -> bool {
        self.processed == self.total
    }

    /// The counter after one more group, which stays as it is once complete.
    pub open spec fn ticked(self) -> ProgressCounter {
        if self.processed < self.total {
            ProgressCounter { processed: (self.processed + 1) as usize, total: self.total }
        } else {
            self
        }
    }
}

/// A tick never takes a counter back and never takes it beyond its total.
pub proof fn lemma_tick_is_monotonic(counter: ProgressCounter)
    requires
        counter.processed <= counter.total,
    ensures
        counter.processed <= counter.ticked().processed <= counter.total,
        counter.ticked().total == counter.total,
        counter.ticked().processed <= counter.processed + 1,
{
}

/// Progress summed over all registered tables.
#[derive(Debug, Clone, Copy, PartialEq, Eq, Structural)]
pub struct CombinedProgress {
    pub processed: u128,
    pub total: u128,
}

/// The processed groups of the registered tables among the first `upto` of `counters`.
pub open spec fn sum_processed(counters: Seq<Option<ProgressCounter>>, upto: int) -> int
    decreases upto,
{
    if upto <= 0 {
        0
    } else {
        sum_processed(counters, upto - 1) + match counters[upto - 1] {
            Some(counter) => counter.processed as int,
            None => 0,
        }
    }
}

/// The expected groups of the registered tables among the first `upto` of `counters`.
pub open spec fn sum_total(counters: Seq<Option<ProgressCounter>>, upto: int) -> int
    decreases upto,
{
    if upto <= 0 {
        0
    } else {
        sum_total(counters, upto - 1) + match counters[upto - 1] {
            Some(counter) => counter.total as int,
            None => 0,
        }
    }
}

/// The progress of every table of one import.
///
/// A table is registered with the number of its groups before its worker
/// starts; from then on its counter only grows, and never beyond that number.
pub struct MultipleProgressReporter {
    counters: Vec<Option<ProgressCounter>>,
}

impl MultipleProgressReporter {
    #[verifier::type_invariant]
    spec fn bounded(self) -> bool {
        counters_bounded(self.counters@)
    }

    /// The counters in the order in which the tables are started.
    pub closed spec fn counters(self) -> Seq<Option<ProgressCounter>> {
        if self.counters@.len() == TABLE_COUNT {
            self.counters@
        } else {
            Seq::new(TABLE_COUNT as nat, |place: int| None)
        }
    }

    /// There is one counter for every table.
    pub proof fn lemma_one_counter_per_table(self)
        ensures
            self.counters().len() == TABLE_COUNT,
    {
    }

    /// The counter of a table, if the table is registered.
    pub open spec fn counter(self, table: TableKind) -> Option<ProgressCounter> {
        self.counters()[table.ordinal()]
    }

    /// A reporter in which no table is registered.
    pub fn new() -> (reporter: MultipleProgressReporter)
        ensures
            reporter.counters().len() == TABLE_COUNT,
            forall|table: TableKind| #[trigger] reporter.counter(table) is None,
    {
        let mut counters: Vec<Option<ProgressCounter>> = Vec::new();
        while counters.len() < TABLE_COUNT
            invariant
                counters@.len() <= TABLE_COUNT,
                forall|i: int| 0 <= i < counters@.len() ==> #[trigger] counters@[i] is None,
            decreases TABLE_COUNT - counters@.len(),
        {
            counters.push(None);
        }
        let reporter = MultipleProgressReporter { counters };
        proof {
            assert forall|table: TableKind| #[trigger] reporter.counter(table) is None by {
                lemma_ordinal_is_place(table);
            }
        }
        reporter
    }

    /// Registers `table` with the number of its groups. The count starts at
    /// zero, also when the table was registered before.
    pub fn register(&mut self, table: TableKind, total_groups: usize)
        ensures
            final(self).counters() == old(self).counters().update(
                table.ordinal(),
                Some(ProgressCounter { processed: 0, total: total_groups }),
            ),
            final(self).counters().len() == TABLE_COUNT,
            final(self).counter(table) == Some(ProgressCounter { processed: 0, total: total_groups }),
            forall|other: TableKind| other != table ==> #[trigger] final(self).counter(other) == old(self).counter(other),
    {
        proof {
            use_type_invariant(&*self);
            lemma_ordinal_is_place(table);
            assert forall|other: TableKind| other != table implies other.ordinal() != table.ordinal()
                && 0 <= other.ordinal() < TABLE_COUNT by {
                lemma_ordinal_is_place(other);
            }
        }
        let index = table.index();
        let counters = replaced(&self.counters, index, Some(ProgressCounter { processed: 0, total: total_groups }));
        self.counters = counters;
    }

    /// Counts one more imported group of `table`. Nothing changes where the
    /// table is not registered or is complete already.
    pub fn tick(&mut self, table: TableKind)
        ensures
            final(self).counters() == old(self).counters().update(
                table.ordinal(),
                match old(self).counter(table) {
                    Some(counter) => Some(counter.ticked()),
                    None => None,
                },
            ),
            final(self).counters().len() == TABLE_COUNT,
            final(self).counter(table) == (match old(self).counter(table) {
                Some(counter) => Some(counter.ticked()),
                None => None,
            }),
            forall|other: TableKind| other != table ==> #[trigger] final(self).counter(other) == old(self).counter(other),
    {
        proof {
            use_type_invariant(&*self);
            lemma_ordinal_is_place(table);
            assert forall|other: TableKind| other != table implies other.ordinal() != table.ordinal()
                && 0 <= other.ordinal() < TABLE_COUNT by {
                lemma_ordinal_is_place(other);
            }
        }
        let index = table.index();
        let ticked = match self.counters[index] {
            Some(counter) => {
                if counter.processed < counter.total {
                    Some(ProgressCounter { processed: counter.processed + 1, total: counter.total })
                } else {
                    Some(counter)
                }
            },
            None => None,
        };
        let counters = replaced(&self.counters, index, ticked);
        self.counters = counters;
    }

    /// The counter of `table`, if the table is registered.
    pub fn progress(&self, table: TableKind) -> (counter: Option<ProgressCounter>)
        ensures
            counter == self.counter(table),
            counter is Some ==> counter->0.processed <= counter->0.total,
            self.counters().len() == TABLE_COUNT,
    {
        proof {
            use_type_invariant(self);
        }
        self.counters[table.index()]
    }

    /// Whether `table` is registered and nothing of it is left to import.
    pub fn is_complete(&self, table: TableKind) -> (complete: bool)
        ensures
            complete == (self.counter(table) is Some && self.counter(table)->0.complete()),
    {
        match self.progress(table) {
            Some(counter) => counter.processed == counter.total,
            None => false,
        }
    }

    /// The imported and the expected groups, summed over all registered tables.
    pub fn combined(&self) -> (progress: CombinedProgress)
        ensures
            progress.processed == sum_processed(self.counters(), TABLE_COUNT as int),
            progress.total == sum_total(self.counters(), TABLE_COUNT as int),
            progress.processed <= progress.total,
    {
        proof {
            use_type_invariant(self);
        }
        let mut processed: u128 = 0;
        let mut total: u128 = 0;
        let mut i: usize = 0;
        while i < TABLE_COUNT
            invariant
                i <= TABLE_COUNT,
                self.counters@.len() == TABLE_COUNT,
                counters_bounded(self.counters@),
                processed == sum_processed(self.counters@, i as int),
                total == sum_total(self.counters@, i as int),
                processed <= total,
                total <= i * usize::MAX,
            decreases TABLE_COUNT - i,
        {
            match self.counters[i] {
                Some(counter) => {
                    assert(counter.processed <= counter.total);
                    assert(total + counter.total <= (i + 1) * usize::MAX) by (nonlinear_arith)
                        requires
                            total <= i * usize::MAX,
                            counter.total <= usize::MAX,
                    ;
                    assert((i + 1) * usize::MAX <= 16 * usize::MAX) by (nonlinear_arith)
                        requires
                            i < 16,
                    ;
                    processed = processed + counter.processed as u128;
                    total = total + counter.total as u128;
                },
                None => {
                    assert(total <= (i + 1) * usize::MAX) by (nonlinear_arith)
                        requires
                            total <= i * usize::MAX,
                    ;
                },
            }
            i += 1;
        }
        CombinedProgress { processed, total }
    }
}

/// The counters with the one at `index` replaced.
fn replaced(counters: &Vec<Option<ProgressCounter>>, index: usize, counter: Option<ProgressCounter>) -> (changed:
    Vec<Option<ProgressCounter>>)
    requires
        index < counters@.len(),
    ensures
        changed@ == counters@.update(index as int, counter),
{
    let mut changed: Vec<Option<ProgressCounter>> = Vec::with_capacity(counters.len());
    let mut i: usize = 0;
    while i < counters.len()
        invariant
            i <= counters@.len(),
            index < counters@.len(),
            changed@ == counters@.update(index as int, counter).take(i as int),
        decreases counters@.len() - i,
    {
        let next = if i == index {
            counter
        } else {
            counters[i]
        };
        changed.push(next);
        assert(counters@.update(index as int, counter).take(i + 1) =~= counters@.update(
            index as int,
            counter,
        ).take(i as int).push(next));
        i += 1;
    }
    assert(counters@.update(index as int, counter).take(counters@.len() as int) =~= counters@.update(
        index as int,
        counter,
    ));
    changed
}

/// Whether there is one counter per table and none is beyond its total.
spec fn counters_bounded(counters: Seq<Option<ProgressCounter>>) -> bool {
    &&& counters.len() == TABLE_COUNT
    &&& forall|i: int|
        0 <= i < counters.len() ==> match #[trigger] counters[i] {
            Some(counter) => counter.processed <= counter.total,
            None => true,
        }
}

} // verus!
