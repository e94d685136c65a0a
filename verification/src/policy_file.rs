//! What is written to the file of a policy database: its metadata and its rows,
//! in batches.

use vstd::prelude::*;
use crate::layout::Layout;
use crate::policy_db::{KeyValue, PolicyDb};
use crate::q_game_mechanics::QGameMechanics;
use crate::rows;
use crate::table;
use crate::table::TranspositionTable;
use crate::text;

verus! {

/// The greatest number of rows in a row group. Small enough that a lookup of a
/// few states decodes little.
pub const ROW_GROUP_SIZE: usize = 1_000_000;

/// The greatest number of rows in a batch that is handed to the writer, so that
/// the whole file never stands in one batch.
pub const WRITE_CHUNK_SIZE: usize = 65_536;

impl Layout {
    /// Whether a table entry is written: its steps are a multiple of the interval.
    pub open spec fn is_written(
        self,
        table: Map<u64, i8>,
        step_interval: usize,
        state: u64,
    ) -> bool {
        table.contains_key(state) && self.word_board(state).steps % (step_interval as nat) == 0
    }

    /// Whether rows are what is written of a table: the entries that the
    /// interval selects, each once, in ascending order of their keys.
    pub open spec fn written_rows(
        self,
        table: Map<u64, i8>,
        step_interval: usize,
        list: Seq<(i64, i8)>,
    ) -> bool {
        &&& rows::ascending(list)
        &&& forall|state: u64, value: i8| #[trigger]
            list.contains((rows::key_of(state), value)) <==> self.is_written(
                table,
                step_interval,
                state,
            ) && table[state] == value
    }
}

/// Whether a pair of the metadata holds a number under a key.
pub open spec fn holds(pair: KeyValue, key: Seq<char>, number: usize) -> bool {
    pair.key@ == key && (pair.value matches Some(value) && value@ == text::decimal(
        number as nat,
    ))
}

/// Whether pairs are the metadata that are written.
pub open spec fn written_metadata(
    pairs: Seq<KeyValue>,
    board_size: usize,
    max_walls: usize,
    max_steps: usize,
    num_states: usize,
) -> bool {
    &&& pairs.len() == 4
    &&& holds(pairs[0], "board_size"@, board_size)
    &&& holds(pairs[1], "max_walls"@, max_walls)
    &&& holds(pairs[2], "max_steps"@, max_steps)
    &&& holds(pairs[3], "num_states"@, num_states)
}

/// The number of batches that some rows make.
pub open spec fn batches_of(num_rows: nat) -> nat {
    (num_rows + WRITE_CHUNK_SIZE - 1) as nat / (WRITE_CHUNK_SIZE as nat)
}

/// The rows of a batch: as many as it may hold, from where the one before ends.
pub open spec fn batch_of(list: Seq<(i64, i8)>, batch: int) -> Seq<(i64, i8)> {
    let first = batch * WRITE_CHUNK_SIZE;
    let end = first + WRITE_CHUNK_SIZE;
    list.subrange(
        first,
        if end <= list.len() {
            end
        } else {
            list.len() as int
        },
    )
}

/// What is written to a file.
pub struct PolicyFile {
    pub metadata: Vec<KeyValue>,
    pub rows: Vec<(i64, i8)>,
}

fn pair(key: &str, number: usize) -> (pair: KeyValue)
    ensures
        holds(pair, key@, number),
{
    KeyValue { key: key.to_owned(), value: Some(text::to_decimal(number)) }
}

/// The row of a table entry.
pub open spec fn row_of(entry: (u64, i8)) -> (i64, i8) {
    (rows::key_of(entry.0), entry.1)
}

/// Whether a row is that of one of the first `count` entries of a list, one that
/// is written.
spec fn row_of_some(
    layout: Layout,
    known: Map<u64, i8>,
    list: Seq<(u64, i8)>,
    step_interval: usize,
    count: int,
    row: (i64, i8),
) -> bool {
    exists|i: int|
        0 <= i < count && row == row_of(#[trigger] list[i]) && layout.is_written(
            known,
            step_interval,
            list[i].0,
        )
}

/// Whether rows are what has been written of the first `count` entries of a list.
spec fn written_so_far(
    layout: Layout,
    known: Map<u64, i8>,
    list: Seq<(u64, i8)>,
    step_interval: usize,
    count: int,
    out: Seq<(i64, i8)>,
) -> bool {
    &&& out.no_duplicates()
    &&& forall|k: int| 0 <= k < out.len() ==> row_of_some(
        layout,
        known,
        list,
        step_interval,
        count,
        #[trigger] out[k],
    )
    &&& forall|i: int|
        0 <= i < count && layout.is_written(known, step_interval, (#[trigger] list[i]).0)
            ==> out.contains(row_of(list[i]))
}

impl PolicyDb {
    /// Prepares a policy database from a transposition table.
    ///
    /// Only states whose completed steps are a multiple of `step_interval` are
    /// kept. The rows are sorted by the stored numbers, which is the order of the
    /// statistics that lookups go by.
    pub fn write(
        mechanics: &QGameMechanics,
        entries: TranspositionTable,
        board_size: usize,
        max_steps: usize,
        max_walls: usize,
        step_interval: usize,
    ) -> (file: PolicyFile)
        requires
            step_interval > 0 || table::entries(entries) == Map::<u64, i8>::empty(),
        ensures
            mechanics@.written_rows(table::entries(entries), step_interval, file.rows@),
            written_metadata(
                file.metadata@,
                board_size,
                max_walls,
                max_steps,
                file.rows@.len() as usize,
            ),
    {
        let ghost layout = mechanics@;
        let ghost known = table::entries(entries);
        let list: Vec<(u64, i8)> = table::table_into_entries(entries);
        let mut kept: Vec<(i64, i8)> = Vec::new();
        let mut i: usize = 0;
        while i < list.len()
            invariant
                i <= list@.len(),
                layout == mechanics@,
                step_interval > 0 || known == Map::<u64, i8>::empty(),
                forall|k: int| 0 <= k < list@.len() ==> {
                    &&& known.contains_key((#[trigger] list@[k]).0)
                    &&& known[list@[k].0] == list@[k].1
                },
                forall|j: int, k: int| 0 <= j < k < list@.len() ==> (#[trigger] list@[j]).0 != (
                #[trigger] list@[k]).0,
                written_so_far(layout, known, list@, step_interval, i as int, kept@),
            decreases list@.len() - i,
        {
            let (state, value) = list[i];
            assert(known.contains_key(list@[i as int].0));
            let steps: usize = mechanics.repr().get_completed_steps(state);
            let ghost before = kept@;
            if steps % step_interval == 0 {
                kept.push((state as i64, value));
            }
            proof {
                lemma_written_next(
                    layout,
                    known,
                    list@,
                    step_interval,
                    i as int,
                    before,
                    kept@,
                );
            }
            i = i + 1;
        }
        let ghost plain = kept@;
        rows::sort_rows(&mut kept);
        proof {
            lemma_written_sorted(layout, known, list@, step_interval, plain, kept@);
        }
        let num_rows: usize = kept.len();
        let mut metadata: Vec<KeyValue> = Vec::new();
        metadata.push(pair("board_size", board_size));
        metadata.push(pair("max_walls", max_walls));
        metadata.push(pair("max_steps", max_steps));
        metadata.push(pair("num_states", num_rows));
        PolicyFile { metadata, rows: kept }
    }
}

proof fn lemma_written_next(
    layout: Layout,
    known: Map<u64, i8>,
    list: Seq<(u64, i8)>,
    step_interval: usize,
    count: int,
    before: Seq<(i64, i8)>,
    after: Seq<(i64, i8)>,
)
    requires
        0 <= count < list.len(),
        forall|j: int, k: int| 0 <= j < k < list.len() ==> (#[trigger] list[j]).0 != (
        #[trigger] list[k]).0,
        written_so_far(layout, known, list, step_interval, count, before),
        after == if layout.is_written(known, step_interval, list[count].0) {
            before.push(row_of(list[count]))
        } else {
            before
        },
    ensures
        written_so_far(layout, known, list, step_interval, count + 1, after),
{
    let row = row_of(list[count]);
    if layout.is_written(known, step_interval, list[count].0) {
        assert forall|k: int| 0 <= k < before.len() implies #[trigger] before[k] != row by {
            assert(row_of_some(layout, known, list, step_interval, count, before[k]));
            let i = choose|i: int|
                0 <= i < count && before[k] == row_of(#[trigger] list[i]) && layout.is_written(
                    known,
                    step_interval,
                    list[i].0,
                );
            rows::lemma_key_round_trip(list[i].0, 0);
            rows::lemma_key_round_trip(list[count].0, 0);
            assert(list[i].0 != list[count].0);
        }
        assert forall|k: int| 0 <= k < after.len() implies row_of_some(
            layout,
            known,
            list,
            step_interval,
            count + 1,
            #[trigger] after[k],
        ) by {
            if k < before.len() {
                assert(row_of_some(layout, known, list, step_interval, count, before[k]));
            } else {
                assert(after[k] == row_of(list[count]));
            }
        }
        assert(after.no_duplicates());
        assert forall|i: int|
            0 <= i < count + 1 && layout.is_written(
                known,
                step_interval,
                (#[trigger] list[i]).0,
            ) implies after.contains(row_of(list[i])) by {
            if i < count {
                let wanted = row_of(list[i]);
                assert(before.contains(wanted));
                let j = choose|j: int| 0 <= j < before.len() && before[j] == wanted;
                assert(after[j] == wanted);
            } else {
                assert(after[after.len() - 1] == row);
            }
        }
    } else {
        assert forall|k: int| 0 <= k < after.len() implies row_of_some(
            layout,
            known,
            list,
            step_interval,
            count + 1,
            #[trigger] after[k],
        ) by {
            assert(row_of_some(layout, known, list, step_interval, count, before[k]));
        }
    }
}

proof fn lemma_written_sorted(
    layout: Layout,
    known: Map<u64, i8>,
    list: Seq<(u64, i8)>,
    step_interval: usize,
    plain: Seq<(i64, i8)>,
    out: Seq<(i64, i8)>,
)
    requires
        forall|k: int| 0 <= k < list.len() ==> {
            &&& known.contains_key((#[trigger] list[k]).0)
            &&& known[list[k].0] == list[k].1
        },
        forall|k: u64| #[trigger] known.contains_key(k) ==> list.contains((k, known[k])),
        written_so_far(layout, known, list, step_interval, list.len() as int, plain),
        plain.to_multiset() == out.to_multiset(),
        forall|i: int, j: int| 0 <= i <= j < out.len() ==> (#[trigger] out[i]).0 <= (
        #[trigger] out[j]).0,
    ensures
        layout.written_rows(known, step_interval, out),
{
    broadcast use vstd::seq_lib::group_to_multiset_ensures;

    plain.lemma_multiset_has_no_duplicates();
    out.lemma_multiset_has_no_duplicates_conv();
    assert forall|state: u64, value: i8| #[trigger]
        out.contains((rows::key_of(state), value)) <==> layout.is_written(
            known,
            step_interval,
            state,
        ) && known[state] == value by {
        let row = (rows::key_of(state), value);
        assert(out.contains(row) <==> out.to_multiset().count(row) > 0);
        assert(plain.contains(row) <==> plain.to_multiset().count(row) > 0);
        rows::lemma_key_round_trip(state, 0);
        if plain.contains(row) {
            let k = choose|k: int| 0 <= k < plain.len() && plain[k] == row;
            assert(row_of_some(
                layout,
                known,
                list,
                step_interval,
                list.len() as int,
                plain[k],
            ));
            let i = choose|i: int|
                0 <= i < list.len() && row == row_of(#[trigger] list[i]) && layout.is_written(
                    known,
                    step_interval,
                    list[i].0,
                );
            rows::lemma_key_round_trip(list[i].0, 0);
            assert(list[i].0 == state);
        }
        if layout.is_written(known, step_interval, state) && known[state] == value {
            let i = choose|i: int| 0 <= i < list.len() && list[i] == (state, known[state]);
            assert(plain.contains(row_of(list[i])));
        }
    }
    assert forall|i: int, j: int| 0 <= i < j < out.len() implies (#[trigger] out[i]).0 < (
    #[trigger] out[j]).0 by {
        if out[i].0 == out[j].0 {
            let state = rows::state_of(out[i].0);
            rows::lemma_key_round_trip(0, out[i].0);
            assert(out.contains((rows::key_of(state), out[i].1)));
            assert(out.contains((rows::key_of(state), out[j].1)));
            assert(out[i] == out[j]);
            assert(false);
        }
    }
}

impl PolicyFile {
    /// The number of entries that are written.
    pub fn num_rows(&self) -> (count: usize)
        ensures
            count == self.rows@.len(),
    {
        self.rows.len()
    }

    /// The number of batches in which the rows are written.
    pub fn num_batches(&self) -> (count: usize)
        ensures
            count == batches_of(self.rows@.len()),
    {
        let whole: usize = self.rows.len() / WRITE_CHUNK_SIZE;
        if self.rows.len() % WRITE_CHUNK_SIZE == 0 {
            whole
        } else {
            whole + 1
        }
    }

    /// The two columns of a batch: states and values.
    pub fn batch(&self, batch: usize) -> (columns: (Vec<i64>, Vec<i8>))
        requires
            batch < batches_of(self.rows@.len()),
        ensures
            columns.0@ == batch_of(self.rows@, batch as int).map_values(|row: (i64, i8)| row.0),
            columns.1@ == batch_of(self.rows@, batch as int).map_values(|row: (i64, i8)| row.1),
    {
        let total: usize = self.rows.len();
        assert(batch * WRITE_CHUNK_SIZE < total);
        let first: usize = batch * WRITE_CHUNK_SIZE;
        let end: usize = if total - first < WRITE_CHUNK_SIZE {
            total
        } else {
            first + WRITE_CHUNK_SIZE
        };
        let ghost part = batch_of(self.rows@, batch as int);
        assert(part == self.rows@.subrange(first as int, end as int));
        let mut states: Vec<i64> = Vec::new();
        let mut values: Vec<i8> = Vec::new();
        let mut i: usize = first;
        while i < end
            invariant
                first <= i <= end <= self.rows@.len(),
                part == self.rows@.subrange(first as int, end as int),
                states@ == part.take(i - first).map_values(|row: (i64, i8)| row.0),
                values@ == part.take(i - first).map_values(|row: (i64, i8)| row.1),
            decreases end - i,
        {
            states.push(self.rows[i].0);
            values.push(self.rows[i].1);
            i = i + 1;
            assert(states@ =~= part.take(i - first).map_values(|row: (i64, i8)| row.0));
            assert(values@ =~= part.take(i - first).map_values(|row: (i64, i8)| row.1));
        }
        assert(part.take(i - first) =~= part);
        (states, values)
    }
}

} // verus!
