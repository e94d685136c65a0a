//! What is written to a policy database is what is read from it.

use vstd::prelude::*;
use crate::action_values;
use crate::fetch;
use crate::layout::Layout;
use crate::lookup;
use crate::policy_db;
use crate::policy_db::{KeyValue, RowGroupMeta, StateStatistics};
use crate::policy_file;
use crate::rows;
use crate::text;

verus! {

/// Whether a footer says of a file what is so: how many rows each group has, and
/// which are its least and its greatest key. No group is empty.
pub open spec fn footer_of(groups: Seq<RowGroupMeta>, file: Seq<Seq<(i64, i8)>>) -> bool {
    &&& groups.len() == file.len()
    &&& forall|g: int| 0 <= g < file.len() ==> {
        let group = #[trigger] file[g];
        &&& group.len() > 0
        &&& groups[g].num_rows == group.len()
        &&& groups[g].statistics == (StateStatistics::Int64 {
            min: Some(group[0].0),
            max: Some(group.last().0),
        })
    }
}

/// The parameters and the number of states are read from the metadata as they
/// were written.
pub proof fn lemma_metadata_read_back(
    pairs: Seq<KeyValue>,
    board_size: usize,
    max_walls: usize,
    max_steps: usize,
    num_states: usize,
)
    requires
        policy_file::written_metadata(pairs, board_size, max_walls, max_steps, num_states),
    ensures
        policy_db::meta_error(pairs) is None,
        policy_db::meta_layout(pairs) == (Layout {
            board_size: board_size as nat,
            max_walls: max_walls as nat,
            max_steps: max_steps as nat,
        }),
        policy_db::meta(pairs, "num_states"@) == Some(num_states as nat),
{
    reveal_with_fuel(policy_db::meta, 5);
    text::lemma_parse_decimal(board_size);
    text::lemma_parse_decimal(max_walls);
    text::lemma_parse_decimal(max_steps);
    text::lemma_parse_decimal(num_states);
    reveal_strlit("board_size");
    reveal_strlit("max_walls");
    reveal_strlit("max_steps");
    reveal_strlit("num_states");
    assert("board_size"@[0] != "max_walls"@[0]);
    assert("board_size"@[0] != "max_steps"@[0]);
    assert("max_walls"@[4] != "max_steps"@[4]);
    assert("num_states"@[0] != "board_size"@[0]);
    assert("num_states"@[0] != "max_walls"@[0]);
    assert("num_states"@[0] != "max_steps"@[0]);
    let one = pairs.drop_first();
    let two = one.drop_first();
    let three = two.drop_first();
    assert(one[0] == pairs[1] && two[0] == pairs[2] && three[0] == pairs[3]);
}

/// A file that was written can be opened, however its rows are divided into row
/// groups: the index gives the parameters and the number of rows that were
/// written, and describes the file.
pub proof fn lemma_written_file_opens(
    pairs: Seq<KeyValue>,
    groups: Seq<RowGroupMeta>,
    file: Seq<Seq<(i64, i8)>>,
    board_size: usize,
    max_walls: usize,
    max_steps: usize,
)
    requires
        rows::all_rows(file).len() <= usize::MAX,
        rows::ascending(rows::all_rows(file)),
        policy_file::written_metadata(
            pairs,
            board_size,
            max_walls,
            max_steps,
            rows::all_rows(file).len() as usize,
        ),
        footer_of(groups, file),
    ensures
        policy_db::open_error(pairs, groups) is None,
        forall|count: int|
            0 <= count <= groups.len() ==> #[trigger] policy_db::meta_rows_in(groups, count)
                <= rows::all_rows(file).len(),
        policy_db::opened(pairs, groups).describes(file),
        policy_db::opened(pairs, groups).sizes(file),
        policy_db::opened(pairs, groups).num_states == rows::all_rows(file).len(),
        policy_db::opened(pairs, groups).layout == (Layout {
            board_size: board_size as nat,
            max_walls: max_walls as nat,
            max_steps: max_steps as nat,
        }),
{
    lemma_metadata_read_back(
        pairs,
        board_size,
        max_walls,
        max_steps,
        rows::all_rows(file).len() as usize,
    );
    lemma_no_group_error(groups, file, 0);
    assert forall|count: int| 0 <= count <= groups.len() implies #[trigger] policy_db::meta_rows_in(
        groups,
        count,
    ) <= rows::all_rows(file).len() by {
        lemma_footer_rows(groups, file, count);
        lookup::lemma_rows_before_grow(file, count, file.len() as int);
        assert(file.take(file.len() as int) =~= file);
    }
    let index = policy_db::opened(pairs, groups);
    assert forall|g: int| 0 <= g < file.len() implies {
        let group = #[trigger] file[g];
        &&& group.len() > 0
        &&& group.len() == index.groups[g].num_rows
        &&& group[0].0 == index.groups[g].min
        &&& group.last().0 == index.groups[g].max
    } by {
        assert(groups[g].num_rows == file[g].len());
    }
}

/// The footer counts the rows before a group.
pub proof fn lemma_footer_rows(groups: Seq<RowGroupMeta>, file: Seq<Seq<(i64, i8)>>, count: int)
    requires
        footer_of(groups, file),
        0 <= count <= groups.len(),
    ensures
        policy_db::meta_rows_in(groups, count) == rows::rows_before(file, count),
    decreases count,
{
    if count > 0 {
        lemma_footer_rows(groups, file, count - 1);
        rows::lemma_rows_before_next(file, count - 1);
        assert(file[count - 1].len() > 0);
    } else {
        assert(file.take(0) =~= Seq::<Seq<(i64, i8)>>::empty());
    }
}

proof fn lemma_no_group_error(groups: Seq<RowGroupMeta>, file: Seq<Seq<(i64, i8)>>, from: int)
    requires
        footer_of(groups, file),
        0 <= from <= groups.len(),
    ensures
        policy_db::groups_error(groups, from) is None,
    decreases groups.len() - from,
{
    if from < groups.len() {
        assert(file[from].len() > 0);
        lemma_no_group_error(groups, file, from + 1);
    }
}

/// A lookup in a file of written rows finds exactly the written entries among
/// the given states, each with its value.
pub proof fn lemma_lookup_finds_entries(
    layout: Layout,
    table: Map<u64, i8>,
    step_interval: usize,
    list: Seq<(i64, i8)>,
    states: Seq<u64>,
    keys: Seq<i64>,
    pair: (u64, i32),
)
    requires
        layout.written_rows(table, step_interval, list),
        lookup::are_keys_of(keys, states),
    ensures
        rows::matching(list, keys).contains(pair) <==> {
            &&& states.contains(pair.0)
            &&& layout.is_written(table, step_interval, pair.0)
            &&& pair.1 == table[pair.0]
        },
{
    let key = rows::key_of(pair.0);
    rows::lemma_matching(list, keys, pair);
    lemma_written_row(layout, table, step_interval, list, pair.0);
    assert(states.contains(pair.0) <==> keys.contains(key));
}

/// A state has a row just where its entry is written, and the row holds its value.
proof fn lemma_written_row(
    layout: Layout,
    table: Map<u64, i8>,
    step_interval: usize,
    list: Seq<(i64, i8)>,
    state: u64,
)
    requires
        layout.written_rows(table, step_interval, list),
    ensures
        rows::has_key(list, rows::key_of(state)) <==> layout.is_written(
            table,
            step_interval,
            state,
        ),
        layout.is_written(table, step_interval, state) ==> rows::value_at(
            list,
            rows::key_of(state),
        ) == table[state],
{
    let key = rows::key_of(state);
    if rows::has_key(list, key) {
        let i = choose|i: int| 0 <= i < list.len() && (#[trigger] list[i]).0 == key;
        assert(list[i] == (key, list[i].1));
        assert(list.contains((rows::key_of(state), list[i].1)));
    }
    if layout.is_written(table, step_interval, state) {
        assert(list.contains((rows::key_of(state), table[state])));
        let i = choose|i: int| 0 <= i < list.len() && list[i] == (key, table[state]);
        rows::lemma_value_at(list, i);
    }
}

/// A lookup finds each state at most once, in the order of the file.
pub proof fn lemma_lookup_in_order(list: Seq<(i64, i8)>, keys: Seq<i64>)
    requires
        rows::strictly_sorted(keys),
    ensures
        forall|i: int, j: int|
            0 <= i < j < rows::matching(list, keys).len() ==> rows::key_of(
                (#[trigger] rows::matching(list, keys)[i]).0,
            ) < rows::key_of((#[trigger] rows::matching(list, keys)[j]).0),
    decreases keys.len(),
{
    if keys.len() > 0 {
        let rest = keys.drop_last();
        let before = rows::matching(list, rest);
        lemma_lookup_in_order(list, rest);
        let found = rows::matching(list, keys);
        rows::lemma_key_round_trip(0, keys.last());
        assert forall|i: int, j: int| 0 <= i < j < found.len() implies rows::key_of(
            (#[trigger] found[i]).0,
        ) < rows::key_of((#[trigger] found[j]).0) by {
            assert(found[i] == before[i]);
            if j == before.len() {
                assert(before.contains(before[i]));
                rows::lemma_matching(list, rest, before[i]);
                let k = choose|k: int| 0 <= k < rest.len() && rest[k] == rows::key_of(before[i].0);
                assert(keys[k] < keys[keys.len() - 1]);
            } else {
                assert(found[j] == before[j]);
            }
        }
    }
}

/// A fetch of one row gives the state and the value of that row: row numbers
/// count from 1.
pub proof fn lemma_fetch_one(fetch: fetch::FetchProgress, file: Seq<Seq<(i64, i8)>>, rowid: i64)
    requires
        fetch.on_track(file),
        fetch.done == fetch.offsets.len(),
        fetch.offsets.to_multiset() == fetch::offsets_of(
            seq![rowid],
            fetch.index.total_rows(),
        ).to_multiset(),
        1 <= rowid <= rows::all_rows(file).len(),
    ensures
        fetch.found == seq![fetch::pair_of(rows::all_rows(file)[rowid - 1])],
{
    broadcast use vstd::seq_lib::group_to_multiset_ensures;

    fetch.index.lemma_total(file);
    let total = fetch.index.total_rows();
    reveal_with_fuel(fetch::offsets_of, 2);
    let offsets = fetch::offsets_of(seq![rowid], total);
    assert(seq![rowid].drop_last() =~= Seq::<i64>::empty());
    assert(offsets =~= seq![(rowid - 1) as i64]);
    assert(offsets.to_multiset().len() == 1);
    assert(fetch.offsets.to_multiset().len() == 1);
    assert(offsets[0] == (rowid - 1) as i64);
    assert(offsets.contains((rowid - 1) as i64));
    assert(fetch.offsets.to_multiset().count((rowid - 1) as i64) > 0);
    assert(fetch.offsets.contains((rowid - 1) as i64));
    assert(fetch.offsets[0] == (rowid - 1) as i64);
    assert(fetch.found =~= seq![fetch::pair_of(rows::all_rows(file)[rowid - 1])]);
}

/// Every row that is fetched is a written entry.
pub proof fn lemma_fetched_entry(
    layout: Layout,
    table: Map<u64, i8>,
    step_interval: usize,
    list: Seq<(i64, i8)>,
    i: int,
)
    requires
        layout.written_rows(table, step_interval, list),
        0 <= i < list.len(),
    ensures
        ({
            let pair = fetch::pair_of(list[i]);
            layout.is_written(table, step_interval, pair.0) && pair.1 == table[pair.0]
        }),
{
    let state = rows::state_of(list[i].0);
    rows::lemma_key_round_trip(0, list[i].0);
    assert(list.contains((rows::key_of(state), list[i].1)));
}

/// The batches, one after the other, are the rows; none is empty, and none is
/// larger than a batch may be.
pub proof fn lemma_batches(list: Seq<(i64, i8)>)
    ensures
        rows::all_rows(
            Seq::new(policy_file::batches_of(list.len()), |b: int| policy_file::batch_of(list, b)),
        ) == list,
        forall|b: int|
            0 <= b < policy_file::batches_of(list.len()) ==> 0 < (
            #[trigger] policy_file::batch_of(list, b)).len() <= policy_file::WRITE_CHUNK_SIZE,
{
    let count = policy_file::batches_of(list.len());
    let file = Seq::new(count, |b: int| policy_file::batch_of(list, b));
    lemma_first_batches(list, count);
    assert(file.take(count as int) =~= file);
    let end = count * policy_file::WRITE_CHUNK_SIZE;
    assert(list.subrange(0, list.len() as int) =~= list);
}

proof fn lemma_first_batches(list: Seq<(i64, i8)>, count: nat)
    requires
        count <= policy_file::batches_of(list.len()),
    ensures
        ({
            let file = Seq::new(
                policy_file::batches_of(list.len()),
                |b: int| policy_file::batch_of(list, b),
            );
            let end = count * policy_file::WRITE_CHUNK_SIZE;
            rows::all_rows(file.take(count as int)) == list.subrange(
                0,
                if end <= list.len() {
                    end as int
                } else {
                    list.len() as int
                },
            )
        }),
    decreases count,
{
    let file = Seq::new(
        policy_file::batches_of(list.len()),
        |b: int| policy_file::batch_of(list, b),
    );
    let part = file.take(count as int);
    if count == 0 {
        assert(part =~= Seq::<Seq<(i64, i8)>>::empty());
        assert(list.subrange(0, 0) =~= Seq::<(i64, i8)>::empty());
    } else {
        lemma_first_batches(list, (count - 1) as nat);
        assert(part.drop_last() =~= file.take(count - 1));
        assert(part.last() == policy_file::batch_of(list, count - 1));
        let end = count * policy_file::WRITE_CHUNK_SIZE;
        let stop = if end <= list.len() {
            end as int
        } else {
            list.len() as int
        };
        assert(rows::all_rows(part) =~= list.subrange(0, stop));
    }
}

impl Layout {
    /// What a search from a state with nothing known leaves, once written: a
    /// lookup finds exactly the open states that the search passed through and
    /// whose steps the interval selects, each with its value under best play.
    pub proof fn lemma_database_holds_values(
        self,
        start: u64,
        table: Map<u64, i8>,
        step_interval: usize,
        list: Seq<(i64, i8)>,
        states: Seq<u64>,
        keys: Seq<i64>,
        pair: (u64, i32),
    )
        requires
            self.searched(Map::empty(), start, table),
            self.written_rows(table, step_interval, list),
            lookup::are_keys_of(keys, states),
        ensures
            rows::matching(list, keys).contains(pair) <==> {
                &&& states.contains(pair.0)
                &&& self.passes(Map::empty(), start, pair.0)
                &&& self.word_board(pair.0).steps % (step_interval as nat) == 0
                &&& pair.1 == self.value(Map::empty(), pair.0)
            },
    {
        lemma_lookup_finds_entries(self, table, step_interval, list, states, keys, pair);
        assert(table.contains_key(pair.0) <==> self.passes(Map::empty(), start, pair.0));
    }

    /// In a full database (every step written) of a searched game, every action
    /// of a state that the search passed through has a value, and it is the value
    /// under best play of the state that the action leads to.
    pub proof fn lemma_action_values(
        self,
        start: u64,
        table: Map<u64, i8>,
        list: Seq<(i64, i8)>,
        data: u64,
        keys: Seq<i64>,
    )
        requires
            self.fits_word(),
            self.valid(start),
            self.searched(Map::empty(), start, table),
            self.written_rows(table, 1, list),
            self.passes(Map::empty(), start, data),
            lookup::are_keys_of(
                keys,
                action_values::without_outcome(
                    self.plan(data).children,
                    self.plan(data).outcomes,
                    self.plan(data).actions.len() as int,
                ),
            ),
        ensures
            self.plan(data).all_valued(rows::matching(list, keys)),
            forall|i: int|
                0 <= i < self.actions_of(data).len() ==> #[trigger] self.plan(
                    data,
                ).value_for_first(rows::matching(list, keys), i) == Some(
                    self.value(
                        Map::empty(),
                        self.child(data, self.actions_of(data)[i]),
                    ) as i32,
                ),
    {
        let none = Map::<u64, i8>::empty();
        let plan = self.plan(data);
        let acts = self.actions_of(data);
        let pairs = rows::matching(list, keys);
        let wanted = action_values::without_outcome(
            plan.children,
            plan.outcomes,
            acts.len() as int,
        );
        self.lemma_passes_open(none, start, data);
        lemma_lookup_in_order(list, keys);
        assert forall|i: int| 0 <= i < acts.len() implies #[trigger] plan.value_for_first(pairs, i)
            == Some(self.value(none, self.child(data, acts[i])) as i32) by {
            let child = self.child(data, acts[i]);
            assert(acts.contains(acts[i]));
            self.lemma_action_child(data, acts[i]);
            self.lemma_value(none, child);
            if self.outcome(child) is None {
                self.lemma_passes(none, child, child);
                self.lemma_passes(none, data, child);
                self.lemma_passes_transitive(none, start, data, child);
                lemma_wanted(plan.children, plan.outcomes, acts.len() as int, i);
                let pair = (child, self.value(none, child) as i32);
                self.lemma_database_holds_values(start, table, 1, list, wanted, keys, pair);
                assert(pairs.contains(pair));
                lemma_pair_value_unique(pairs, pair);
            }
        }
    }
}

/// A state without an outcome is among those to look up.
proof fn lemma_wanted(states: Seq<u64>, outcomes: Seq<Option<i8>>, count: int, i: int)
    requires
        0 <= i < count <= states.len(),
        outcomes.len() == states.len(),
        outcomes[i] is None,
    ensures
        action_values::without_outcome(states, outcomes, count).contains(states[i]),
    decreases count,
{
    let list = action_values::without_outcome(states, outcomes, count);
    if i == count - 1 {
        assert(list[list.len() - 1] == states[i]);
    } else {
        lemma_wanted(states, outcomes, count - 1, i);
        let shorter = action_values::without_outcome(states, outcomes, count - 1);
        let k = choose|k: int| 0 <= k < shorter.len() && shorter[k] == states[i];
        assert(list[k] == states[i]);
    }
}

/// Where each state occurs once, a pair gives its state its value.
proof fn lemma_pair_value_unique(pairs: Seq<(u64, i32)>, pair: (u64, i32))
    requires
        pairs.contains(pair),
        forall|i: int, j: int|
            0 <= i < j < pairs.len() ==> rows::key_of((#[trigger] pairs[i]).0) < rows::key_of(
                (#[trigger] pairs[j]).0,
            ),
    ensures
        action_values::pair_value(pairs, pair.0) == Some(pair.1),
    decreases pairs.len(),
{
    let k = choose|k: int| 0 <= k < pairs.len() && pairs[k] == pair;
    let last = pairs.len() - 1;
    if k < last {
        assert(rows::key_of(pairs[k].0) < rows::key_of(pairs[last].0));
        let rest = pairs.drop_last();
        assert(rest[k] == pair);
        lemma_pair_value_unique(rest, pair);
    }
}

} // verus!
