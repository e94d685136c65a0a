//! Fetching rows of a policy database by their number.
//!
//! As with lookups, a fetch says which row group it needs next and takes in its
//! rows; whoever runs it does the reading.

use vstd::prelude::*;
use crate::lookup;
use crate::policy_db;
use crate::policy_db::{DbIndex, PolicyDb};
use crate::rows;
use crate::rows::DecodedRowGroup;

verus! {

/// A row as state and value.
pub open spec fn pair_of(row: (i64, i8)) -> (u64, i32) {
    (rows::state_of(row.0), row.1 as i32)
}

/// The offsets of the rows with the given numbers, in the given order. Row
/// numbers start at 1; those out of range are dropped.
pub open spec fn offsets_of(rowids: Seq<i64>, total: nat) -> Seq<i64>
    decreases rowids.len(),
{
    if rowids.len() == 0 {
        Seq::empty()
    } else {
        let before = offsets_of(rowids.drop_last(), total);
        if 1 <= rowids.last() <= total {
            before.push((rowids.last() - 1) as i64)
        } else {
            before
        }
    }
}

impl DbIndex {
    /// The number of all rows.
    pub open spec fn total_rows(self) -> nat {
        policy_db::rows_in(self.groups, self.groups.len() as int)
    }

    /// Whether a group holds the row at an offset.
    pub open spec fn holds_row(self, group: int, offset: int) -> bool {
        &&& 0 <= group < self.groups.len()
        &&& policy_db::rows_in(self.groups, group) <= offset < policy_db::rows_in(
            self.groups,
            group + 1,
        )
    }

    /// Whether a file has the groups that the index describes, with their
    /// numbers of rows.
    pub open spec fn sizes(self, file: Seq<Seq<(i64, i8)>>) -> bool {
        &&& file.len() == self.groups.len()
        &&& forall|g: int| 0 <= g < file.len() ==> (#[trigger] file[g]).len()
            == self.groups[g].num_rows
    }

    /// The rows before a group are as many as the index says.
    proof fn lemma_rows_before(self, file: Seq<Seq<(i64, i8)>>, group: int)
        requires
            self.sizes(file),
            0 <= group <= file.len(),
        ensures
            rows::rows_before(file, group) == policy_db::rows_in(self.groups, group),
        decreases group,
    {
        if group > 0 {
            self.lemma_rows_before(file, group - 1);
            rows::lemma_rows_before_next(file, group - 1);
        } else {
            assert(file.take(0) =~= Seq::<Seq<(i64, i8)>>::empty());
        }
    }

    /// A file has as many rows as the index says.
    pub proof fn lemma_total(self, file: Seq<Seq<(i64, i8)>>)
        requires
            self.sizes(file),
        ensures
            rows::all_rows(file).len() == self.total_rows(),
    {
        self.lemma_rows_before(file, file.len() as int);
        assert(file.take(file.len() as int) =~= file);
    }

    /// More groups hold at least as many rows.
    proof fn lemma_rows_grow(self, a: int, b: int)
        requires
            a <= b,
        ensures
            policy_db::rows_in(self.groups, a) <= policy_db::rows_in(self.groups, b),
        decreases b - a,
    {
        if a < b {
            self.lemma_rows_grow(a, b - 1);
        }
    }

    /// A row behind a group stands in a later group. A fetch, which settles every
    /// requested row of a group when it reads the group, so reads no group twice.
    pub proof fn lemma_later_group(self, read: int, next: int, offset: int)
        requires
            policy_db::rows_in(self.groups, read + 1) <= offset,
            self.holds_row(next, offset),
        ensures
            next > read,
    {
        if next <= read {
            self.lemma_rows_grow(next + 1, read + 1);
        }
    }

    /// The rows of a group in the file.
    proof fn lemma_row_here(self, file: Seq<Seq<(i64, i8)>>, group: int, offset: int)
        requires
            self.sizes(file),
            self.holds_row(group, offset),
        ensures
            0 <= offset - policy_db::rows_in(self.groups, group) < file[group].len(),
            offset < rows::all_rows(file).len(),
            rows::all_rows(file)[offset] == file[group][offset - policy_db::rows_in(
                self.groups,
                group,
            )],
    {
        self.lemma_rows_before(file, group);
        rows::lemma_row(file, group, offset - policy_db::rows_in(self.groups, group));
    }
}

/// How far a fetch has come.
pub struct FetchProgress {
    /// The database.
    pub index: DbIndex,
    /// The offsets of the rows, in ascending order.
    pub offsets: Seq<i64>,
    /// The number of rows that have been fetched.
    pub done: int,
    /// What has been fetched.
    pub found: Seq<(u64, i32)>,
}

impl FetchProgress {
    /// The offsets are in ascending order and in range.
    pub open spec fn in_range(self) -> bool {
        &&& rows::sorted(self.offsets)
        &&& 0 <= self.done <= self.offsets.len()
        &&& forall|i: int| 0 <= i < self.offsets.len() ==> 0 <= #[trigger] self.offsets[i]
            < self.index.total_rows()
    }

    /// Whether, for a file of the sizes that the index gives, the first rows
    /// have been fetched.
    pub open spec fn on_track(self, file: Seq<Seq<(i64, i8)>>) -> bool {
        &&& self.index.sizes(file)
        &&& self.found == Seq::new(
            self.done as nat,
            |k: int| pair_of(rows::all_rows(file)[self.offsets[k] as int]),
        )
    }

    /// The same database and rows.
    pub open spec fn same_fetch(self, other: FetchProgress) -> bool {
        self.index == other.index && self.offsets == other.offsets
    }
}

/// A fetch of rows by their number.
pub struct RowFetch<'a> {
    db: &'a PolicyDb,
    sorted: Vec<i64>,
    done: usize,
    results: Vec<(u64, i32)>,
}

impl<'a> View for RowFetch<'a> {
    type V = FetchProgress;

    closed spec fn view(&self) -> FetchProgress {
        FetchProgress {
            index: self.db@,
            offsets: self.sorted@,
            done: self.done as int,
            found: self.results@,
        }
    }
}

impl PolicyDb {
    /// Starts a fetch of states and values by row number. Row `n` is the `n`th
    /// row of the file, counted from 1.
    ///
    /// The fetch gives one state and value per requested row, in ascending order
    /// of the numbers. Numbers out of range are dropped.
    pub fn fetch_states_by_rowid<'a>(&'a self, rowids: &[i64]) -> (fetch: RowFetch<'a>)
        ensures
            fetch@.index == self@,
            fetch@.in_range(),
            fetch@.offsets.to_multiset() == offsets_of(
                rowids@,
                self@.total_rows(),
            ).to_multiset(),
            fetch@.done == 0,
            fetch@.found == Seq::<(u64, i32)>::empty(),
            forall|file: Seq<Seq<(i64, i8)>>|
                self@.sizes(file) ==> #[trigger] fetch@.on_track(file),
    {
        let total: u64 = self.rows_before(self.num_row_groups());
        let mut sorted: Vec<i64> = Vec::new();
        let mut i: usize = 0;
        assert(rowids@.take(0) =~= Seq::<i64>::empty());
        while i < rowids.len()
            invariant
                i <= rowids@.len(),
                total == self@.total_rows(),
                sorted@ == offsets_of(rowids@.take(i as int), total as nat),
                forall|k: int| 0 <= k < sorted@.len() ==> 0 <= #[trigger] sorted@[k] < total,
            decreases rowids@.len() - i,
        {
            let rowid: i64 = rowids[i];
            assert(rowids@.take(i + 1).drop_last() =~= rowids@.take(i as int));
            if rowid >= 1 && (rowid as u64) <= total {
                sorted.push(rowid - 1);
            }
            i = i + 1;
        }
        assert(rowids@.take(i as int) =~= rowids@);
        let ghost plain = sorted@;
        rows::sort_keys(&mut sorted);
        proof {
            lookup::lemma_same_members(sorted@, plain);
            assert forall|k: int| 0 <= k < sorted@.len() implies 0 <= #[trigger] sorted@[k]
                < total by {
                assert(sorted@.contains(sorted@[k]));
                let j = choose|j: int| 0 <= j < plain.len() && plain[j] == sorted@[k];
                assert(0 <= plain[j] < total);
            }
        }
        let fetch = RowFetch { db: self, sorted, done: 0, results: Vec::new() };
        proof {
            assert forall|file: Seq<Seq<(i64, i8)>>| self@.sizes(file) implies #[trigger]
            fetch@.on_track(file) by {
                assert(fetch@.found =~= Seq::new(
                    0nat,
                    |k: int| pair_of(rows::all_rows(file)[fetch@.offsets[k] as int]),
                ));
            }
        }
        fetch
    }
}

/// Whether offsets are those of the rows with the given numbers, in ascending order.
pub open spec fn are_offsets_of(offsets: Seq<i64>, rowids: Seq<i64>, total: nat) -> bool {
    rows::sorted(offsets) && offsets.to_multiset() == offsets_of(rowids, total).to_multiset()
}

impl PolicyDb {
    /// The rows with the given numbers, where all row groups are at hand.
    pub fn fetch_rows_in(&self, groups: &Vec<DecodedRowGroup>, rowids: &[i64]) -> (pairs: Vec<
        (u64, i32),
    >)
        requires
            forall|g: int| 0 <= g < groups@.len() ==> (#[trigger] groups@[g]).wf(),
            self@.sizes(lookup::file_of(groups@)),
        ensures
            exists|offsets: Seq<i64>| #[trigger]
                are_offsets_of(offsets, rowids@, self@.total_rows()) && pairs@ == Seq::new(
                    offsets.len(),
                    |k: int|
                        pair_of(rows::all_rows(lookup::file_of(groups@))[offsets[k] as int]),
                ),
    {
        let ghost file = lookup::file_of(groups@);
        let mut fetch = self.fetch_states_by_rowid(rowids);
        let ghost offsets = fetch@.offsets;
        let mut next: Option<usize> = fetch.next_group();
        while next.is_some()
            invariant
                file == lookup::file_of(groups@),
                fetch@.index == self@,
                fetch@.offsets == offsets,
                0 <= fetch@.done <= offsets.len(),
                forall|g: int| 0 <= g < groups@.len() ==> (#[trigger] groups@[g]).wf(),
                self@.sizes(file),
                fetch@.on_track(file),
                next is None <==> fetch@.done == offsets.len(),
                next matches Some(g) ==> self@.holds_row(g as int, offsets[fetch@.done] as int),
            decreases offsets.len() - fetch@.done,
        {
            let group: usize = next.unwrap();
            assert(file[group as int] == groups@[group as int].rows());
            fetch.read_group(group, &groups[group]);
            next = fetch.next_group();
        }
        assert(are_offsets_of(offsets, rowids@, self@.total_rows()));
        fetch.into_pairs()
    }
}

impl<'a> RowFetch<'a> {
    #[verifier::type_invariant]
    pub closed spec fn inv(self) -> bool {
        self@.in_range()
    }

    /// What a caller may rely on of every fetch.
    pub proof fn lemma_inv(self)
        requires
            self.inv(),
        ensures
            self@.in_range(),
    {
    }

    /// The row group that holds the next row, or `None` when all rows have been
    /// fetched.
    pub fn next_group(&self) -> (group: Option<usize>)
        ensures
            group is None <==> self@.done == self@.offsets.len(),
            group matches Some(g) ==> self@.index.holds_row(
                g as int,
                self@.offsets[self@.done] as int,
            ),
    {
        proof {
            use_type_invariant(self);
        }
        if self.done == self.sorted.len() {
            None
        } else {
            Some(self.db.group_of_row(self.sorted[self.done] as u64))
        }
    }

    /// Takes in the rows of the group that holds the next row: fetches every
    /// requested row of the group.
    pub fn read_group(&mut self, number: usize, group: &DecodedRowGroup)
        requires
            old(self)@.done < old(self)@.offsets.len(),
            old(self)@.index.holds_row(
                number as int,
                old(self)@.offsets[old(self)@.done] as int,
            ),
            group.wf(),
            group.rows().len() == old(self)@.index.groups[number as int].num_rows,
        ensures
            final(self)@.same_fetch(old(self)@),
            old(self)@.done < final(self)@.done <= old(self)@.offsets.len(),
            forall|i: int|
                old(self)@.done <= i < old(self)@.offsets.len() ==> (i < final(self)@.done
                    <==> #[trigger] old(self)@.offsets[i] < policy_db::rows_in(
                    old(self)@.index.groups,
                    number + 1,
                )),
            final(self)@.found == old(self)@.found + Seq::new(
                (final(self)@.done - old(self)@.done) as nat,
                |k: int|
                    pair_of(
                        group.rows()[old(self)@.offsets[old(self)@.done + k] - policy_db::rows_in(
                            old(self)@.index.groups,
                            number as int,
                        )],
                    ),
            ),
            forall|file: Seq<Seq<(i64, i8)>>|
                old(self)@.on_track(file) && group.rows() == file[number as int]
                    ==> #[trigger] final(self)@.on_track(file),
    {
        proof {
            use_type_invariant(&*self);
        }
        let ghost start = self@;
        let first: u64 = self.db.rows_before(number);
        let groups: usize = self.db.num_row_groups();
        assert(number < groups);
        let end: u64 = self.db.rows_before(number + 1);
        let length: usize = group.states.len();
        let mut results: Vec<(u64, i32)> = Vec::new();
        std::mem::swap(&mut results, &mut self.results);
        assert(results@ =~= start.found + Seq::new(
            0nat,
            |k: int|
                pair_of(
                    group.rows()[start.offsets[start.done + k] - policy_db::rows_in(
                        start.index.groups,
                        number as int,
                    )],
                ),
        ));
        while self.done < self.sorted.len() && (self.sorted[self.done] as u64) < end
            invariant
                self.inv(),
                self@.same_fetch(start),
                start.in_range(),
                start.done < start.offsets.len(),
                start.index.holds_row(number as int, start.offsets[start.done] as int),
                group.wf(),
                group.rows().len() == start.index.groups[number as int].num_rows,
                first == policy_db::rows_in(start.index.groups, number as int),
                end == policy_db::rows_in(start.index.groups, number + 1),
                length == group.rows().len(),
                start.done <= self@.done <= start.offsets.len(),
                forall|i: int|
                    start.done <= i < self@.done ==> #[trigger] start.offsets[i] < end,
                results@ == start.found + Seq::new(
                    (self@.done - start.done) as nat,
                    |k: int|
                        pair_of(
                            group.rows()[start.offsets[start.done + k] - policy_db::rows_in(
                                start.index.groups,
                                number as int,
                            )],
                        ),
                ),
            decreases self.sorted@.len() - self.done,
        {
            let offset: i64 = self.sorted[self.done];
            let ghost before = self@;
            assert(start.offsets[start.done] <= start.offsets[before.done]);
            assert(end == first + start.index.groups[number as int].num_rows);
            assert(offset - first < length);
            let row: usize = (offset as u64 - first) as usize;
            results.push((group.states[row] as u64, group.values[row] as i32));
            self.done = self.done + 1;
            assert(results@ =~= start.found + Seq::new(
                (self@.done - start.done) as nat,
                |k: int|
                    pair_of(
                        group.rows()[start.offsets[start.done + k] - policy_db::rows_in(
                            start.index.groups,
                            number as int,
                        )],
                    ),
            ));
        }
        proof {
            assert forall|i: int| start.done <= i < start.offsets.len() implies (i < self@.done
                <==> #[trigger] start.offsets[i] < policy_db::rows_in(
                start.index.groups,
                number + 1,
            )) by {
                if i >= self@.done {
                    assert(start.offsets[self@.done] <= start.offsets[i]);
                }
            }
            assert(start.offsets[start.done] < end);
        }
        self.results = results;
        proof {
            assert forall|file: Seq<Seq<(i64, i8)>>|
                start.on_track(file) && group.rows() == file[number as int] implies #[trigger]
            self@.on_track(file) by {
                assert forall|k: int| start.done <= k < self@.done implies rows::all_rows(
                    file,
                )[#[trigger] start.offsets[k] as int] == group.rows()[start.offsets[k]
                    - policy_db::rows_in(start.index.groups, number as int)] by {
                    assert(start.offsets[start.done] <= start.offsets[k]);
                    start.index.lemma_row_here(file, number as int, start.offsets[k] as int);
                }
                assert(self@.found =~= Seq::new(
                    self@.done as nat,
                    |k: int| pair_of(rows::all_rows(file)[self@.offsets[k] as int]),
                ));
            }
        }
    }

    /// What has been fetched.
    pub fn into_pairs(self) -> (pairs: Vec<(u64, i32)>)
        ensures
            pairs@ == self@.found,
    {
        self.results
    }
}

} // verus!
