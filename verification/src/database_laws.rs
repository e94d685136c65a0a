//! What is stored in a policy database, and what comes back from it.

use vstd::prelude::*;
use vstd::arithmetic::power::*;
use crate::fetch;
use crate::layout::Layout;
use crate::lookup;
use crate::policy_db;
use crate::policy_db::{DbIndex, KeyValue, OpenError, RowGroupMeta, StateStatistics};
use crate::policy_file;
use crate::round_trip;
use crate::rows;
use crate::rows::DecodedRowGroup;
use crate::text;

verus! {

/// A state is stored as itself where it is below 2^63, and else as the number that
/// lies 2^64 below it.
pub proof fn lemma_key(state: u64)
    ensures
        rows::key_of(state) == if state < 0x8000_0000_0000_0000 {
            state as int
        } else {
            state - 0x1_0000_0000_0000_0000
        },
        rows::state_of(rows::key_of(state)) == state,
{
    rows::lemma_key_round_trip(state, 0);
    let key = rows::key_of(state);
    assert(key == state as i64);
    assert(state < 0x8000_0000_0000_0000u64 ==> (state as i64) == state) by (bit_vector);
    assert(state >= 0x8000_0000_0000_0000u64 ==> (state as i64) == state
        - 0x1_0000_0000_0000_0000) by (bit_vector);
}

/// The rows of a group are its two columns side by side.
pub proof fn lemma_group_rows(group: DecodedRowGroup, groups: Seq<DecodedRowGroup>, i: int, g: int)
    requires
        group.wf(),
    ensures
        group.rows().len() == group.states@.len(),
        group.rows().len() == group.values@.len(),
        0 <= i < group.states@.len() ==> group.rows()[i] == (group.states@[i], group.values@[i]),
        lookup::file_of(groups).len() == groups.len(),
        0 <= g < groups.len() ==> lookup::file_of(groups)[g] == groups[g].rows(),
{
}

/// An index describes every file whose groups are as it says and whose rows are
/// in ascending order.
pub proof fn lemma_describes(index: DbIndex, file: Seq<Seq<(i64, i8)>>)
    ensures
        index.describes(file) <==> {
            let all = rows::all_rows(file);
            &&& file.len() == index.groups.len()
            &&& forall|i: int, j: int| 0 <= i < j < all.len() ==> (#[trigger] all[i]).0 < (
            #[trigger] all[j]).0
            &&& forall|g: int| 0 <= g < file.len() ==> {
                &&& (#[trigger] file[g]).len() > 0
                &&& file[g].len() == index.groups[g].num_rows
                &&& file[g][0].0 == index.groups[g].min
                &&& file[g][file[g].len() - 1].0 == index.groups[g].max
            }
        },
        index.sizes(file) <==> file.len() == index.groups.len() && forall|g: int|
            0 <= g < file.len() ==> (#[trigger] file[g]).len() == index.groups[g].num_rows,
{
}

/// The rows of a file are those of its groups one after the other: a group's rows
/// start where those of the groups before it end.
pub proof fn lemma_file_rows(file: Seq<Seq<(i64, i8)>>, last: Seq<(i64, i8)>, i: int)
    ensures
        rows::all_rows(Seq::<Seq<(i64, i8)>>::empty()).len() == 0,
        rows::all_rows(file.push(last)).len() == rows::all_rows(file).len() + last.len(),
        0 <= i < rows::all_rows(file).len() ==> rows::all_rows(file.push(last))[i]
            == rows::all_rows(file)[i],
        0 <= i < last.len() ==> rows::all_rows(file.push(last))[rows::all_rows(file).len() + i]
            == last[i],
{
    assert(file.push(last).drop_last() =~= file);
}

/// A lookup finds exactly the given states that a row holds, each with the value
/// of its row, each once, and in the order of the rows.
pub proof fn lemma_lookup(
    list: Seq<(i64, i8)>,
    states: Seq<u64>,
    keys: Seq<i64>,
    state: u64,
    value: i32,
)
    requires
        forall|i: int, j: int| 0 <= i < j < list.len() ==> (#[trigger] list[i]).0 < (
        #[trigger] list[j]).0,
        lookup::are_keys_of(keys, states),
    ensures
        rows::matching(list, keys).contains((state, value)) <==> states.contains(state)
            && exists|i: int|
            0 <= i < list.len() && (#[trigger] list[i]).0 == state as i64 && list[i].1 == value,
        forall|i: int, j: int|
            0 <= i < j < rows::matching(list, keys).len() ==> ((#[trigger] rows::matching(
                list,
                keys,
            )[i]).0 as i64) < ((#[trigger] rows::matching(list, keys)[j]).0 as i64),
{
    rows::lemma_matching(list, keys, (state, value));
    round_trip::lemma_lookup_in_order(list, keys);
    let key = rows::key_of(state);
    if rows::has_key(list, key) {
        let i = choose|i: int| 0 <= i < list.len() && (#[trigger] list[i]).0 == key;
        rows::lemma_value_at(list, i);
    }
    if exists|i: int|
        0 <= i < list.len() && (#[trigger] list[i]).0 == state as i64 && list[i].1 == value {
        let i = choose|i: int|
            0 <= i < list.len() && (#[trigger] list[i]).0 == state as i64 && list[i].1 == value;
        rows::lemma_value_at(list, i);
    }
    assert(states.contains(state) <==> keys.contains(rows::key_of(state)));
}

/// The keys of states are their stored numbers, in ascending order and each once.
pub proof fn lemma_keys(keys: Seq<i64>, states: Seq<u64>)
    ensures
        lookup::are_keys_of(keys, states) <==> (forall|i: int, j: int|
            0 <= i < j < keys.len() ==> #[trigger] keys[i] < #[trigger] keys[j]) && forall|s: u64|
            #[trigger] states.contains(s) <==> keys.contains(s as i64),
{
    if lookup::are_keys_of(keys, states) {
        assert forall|s: u64| #[trigger] states.contains(s) <==> keys.contains(s as i64) by {
            assert(keys.contains(rows::key_of(s)) == keys.contains(s as i64));
        }
    }
}

/// A lookup asks for a group just where the next key lies between the group's
/// least and greatest, and it is over where no key or no group is left. A row
/// stands in a group where it comes after the groups before and before those after.
pub proof fn lemma_asks(progress: lookup::LookupProgress, index: DbIndex, group: int, offset: int)
    ensures
        progress.needs_group() <==> {
            &&& 0 <= progress.settled < progress.keys.len()
            &&& 0 <= progress.group < progress.index.groups.len()
            &&& progress.index.groups[progress.group].min <= progress.keys[progress.settled]
            &&& progress.keys[progress.settled] <= progress.index.groups[progress.group].max
        },
        progress.finished() <==> progress.settled == progress.keys.len() || progress.group
            == progress.index.groups.len(),
        index.holds_row(group, offset) <==> {
            &&& 0 <= group < index.groups.len()
            &&& policy_db::rows_in(index.groups, group) <= offset
            &&& offset < policy_db::rows_in(index.groups, group) + index.groups[group].num_rows
        },
{
}

/// The rows that are written are exactly the table entries whose steps are a
/// multiple of the interval, each once, in ascending order of stored numbers.
pub proof fn lemma_written(
    layout: Layout,
    table: Map<u64, i8>,
    step_interval: usize,
    list: Seq<(i64, i8)>,
    state: u64,
    value: i8,
)
    requires
        layout.written_rows(table, step_interval, list),
    ensures
        list.contains((state as i64, value)) <==> table.contains_key(state) && table[state] == value
            && layout.word_board(state).steps as int % (step_interval as int) == 0,
        forall|i: int, j: int| 0 <= i < j < list.len() ==> (#[trigger] list[i]).0 < (
        #[trigger] list[j]).0,
{
    assert(list.contains((rows::key_of(state), value)) <==> layout.is_written(
        table,
        step_interval,
        state,
    ) && table[state] == value);
}

/// With an interval of one step every entry is written.
pub proof fn lemma_all_written(
    layout: Layout,
    table: Map<u64, i8>,
    list: Seq<(i64, i8)>,
    state: u64,
)
    requires
        layout.written_rows(table, 1, list),
        table.contains_key(state),
    ensures
        list.contains((state as i64, table[state])),
{
    lemma_written(layout, table, 1, list, state, table[state]);
}

/// The metadata that are written: four numbers in decimal under their names.
pub proof fn lemma_metadata(
    pairs: Seq<KeyValue>,
    board_size: usize,
    max_walls: usize,
    max_steps: usize,
    num_states: usize,
)
    requires
        policy_file::written_metadata(pairs, board_size, max_walls, max_steps, num_states),
    ensures
        pairs.len() == 4,
        pairs[0].key@ == "board_size"@,
        pairs[1].key@ == "max_walls"@,
        pairs[2].key@ == "max_steps"@,
        pairs[3].key@ == "num_states"@,
        pairs[0].value matches Some(v) && v@ == text::decimal(board_size as nat),
        pairs[1].value matches Some(v) && v@ == text::decimal(max_walls as nat),
        pairs[2].value matches Some(v) && v@ == text::decimal(max_steps as nat),
        pairs[3].value matches Some(v) && v@ == text::decimal(num_states as nat),
{
}

/// Every batch but the last is full, with 65536 rows. A row group holds at most
/// a million.
pub proof fn lemma_batch_sizes(list: Seq<(i64, i8)>, batch: int, i: int)
    requires
        0 <= batch < policy_file::batches_of(list.len()),
    ensures
        ({
            let rows_here = policy_file::batch_of(list, batch);
            &&& 65536 * batch < list.len()
            &&& list.len() <= 65536 * policy_file::batches_of(list.len())
            &&& rows_here.len() == if 65536 * (batch + 1) <= list.len() {
                65536
            } else {
                list.len() - 65536 * batch
            }
            &&& 0 <= i < rows_here.len() ==> rows_here[i] == list[65536 * batch + i]
        }),
        policy_file::ROW_GROUP_SIZE == 1_000_000,
{
}

/// Whether the character at each place of some digits is the digit of a number
/// there.
pub open spec fn spells(digits: Seq<char>, n: nat) -> bool {
    &&& (n as int) < pow(10, digits.len())
    &&& forall|i: int| 0 <= i < digits.len() ==> (#[trigger] digits[i]) as int == 48 + (n as int
        / pow(10, (digits.len() - 1 - i) as nat)) % 10
}

proof fn lemma_spells(digits: Seq<char>, n: nat)
    requires
        forall|i: int| 0 <= i < digits.len() ==> '0' <= #[trigger] digits[i] <= '9',
    ensures
        spells(digits, n) <==> n == text::digits_value(digits),
    decreases digits.len(),
{
    lemma_pow0(10);
    if digits.len() > 0 {
        let rest = digits.drop_last();
        let last = digits.len() - 1;
        assert forall|i: int| 0 <= i < rest.len() implies '0' <= #[trigger] rest[i] <= '9' by {
            assert(rest[i] == digits[i]);
        }
        lemma_spells(rest, n / 10);
        lemma_pow_adds(10, 1, rest.len());
        lemma_pow1(10);
        assert('0' <= digits[last] <= '9');
        assert forall|i: int| 0 <= i < rest.len() implies (n as int / pow(
            10,
            (digits.len() - 1 - i) as nat,
        )) == (n as int / 10) / #[trigger] pow(10, (rest.len() - 1 - i) as nat) by {
            let e = (rest.len() - 1 - i) as nat;
            lemma_pow_adds(10, 1, e);
            lemma_pow_positive(10, e);
            vstd::arithmetic::div_mod::lemma_div_denominator(n as int, 10, pow(10, e));
        }
        assert(n as int / pow(10, 0) == n);
        let value = text::digits_value(digits);
        assert(value == text::digits_value(rest) * 10 + (digits.last() as nat - 48) as nat);
        if spells(digits, n) {
            assert forall|i: int| 0 <= i < rest.len() implies (#[trigger] rest[i]) as int == 48 + (
            n as int / 10 / pow(10, (rest.len() - 1 - i) as nat)) % 10 by {
                assert(rest[i] == digits[i]);
            }
            assert(spells(rest, n / 10));
            assert(digits[last] as int == 48 + n as int % 10);
        }
        if n == value {
            assert(n / 10 == text::digits_value(rest));
            assert(spells(rest, n / 10));
            assert forall|i: int| 0 <= i < digits.len() implies (#[trigger] digits[i]) as int == 48
                + (n as int / pow(10, (digits.len() - 1 - i) as nat)) % 10 by {
                if i < rest.len() {
                    assert(rest[i] == digits[i]);
                }
            }
        }
    } else {
        assert(digits =~= Seq::<char>::empty());
    }
}

/// A text stands for a number just where it is at least one decimal digit, maybe
/// behind one plus sign, that spells the number, and the machine word holds it.
pub proof fn lemma_parsed(source: Seq<char>, n: nat)
    ensures
        ({
            let digits = if source.len() > 0 && source[0] == '+' {
                source.skip(1)
            } else {
                source
            };
            text::parsed(source) == Some(n) <==> {
                &&& digits.len() > 0
                &&& forall|i: int| 0 <= i < digits.len() ==> '0' <= #[trigger] digits[i] <= '9'
                &&& spells(digits, n)
                &&& n <= usize::MAX
            }
        }),
{
    let digits = if source.len() > 0 && source[0] == '+' {
        source.skip(1)
    } else {
        source
    };
    assert(digits =~= text::unsigned_digits(source));
    if forall|i: int| 0 <= i < digits.len() ==> '0' <= #[trigger] digits[i] <= '9' {
        lemma_spells(digits, n);
        assert forall|i: int| 0 <= i < digits.len() implies text::is_digit(#[trigger] digits[i]) by {}
    } else {
        let i = choose|i: int| 0 <= i < digits.len() && !('0' <= #[trigger] digits[i] <= '9');
        assert(!text::is_digit(digits[i]));
    }
}

/// A number of the metadata is that of the first pair with its name, whatever
/// follows; there is none where no pair has the name or the first holds no number.
pub proof fn lemma_meta(pairs: Seq<KeyValue>, key: Seq<char>, i: int)
    requires
        0 <= i <= pairs.len(),
        forall|j: int| 0 <= j < i ==> (#[trigger] pairs[j]).key@ != key,
        i < pairs.len() ==> pairs[i].key@ == key,
    ensures
        i == pairs.len() ==> policy_db::meta(pairs, key) is None,
        i < pairs.len() ==> policy_db::meta(pairs, key) == match pairs[i].value {
            Some(value) => text::parsed(value@),
            None => None,
        },
    decreases i,
{
    if i > 0 {
        let rest = pairs.drop_first();
        assert(pairs[0].key@ != key);
        assert forall|j: int| 0 <= j < i - 1 implies (#[trigger] rest[j]).key@ != key by {
            assert(rest[j] == pairs[j + 1]);
        }
        if i < pairs.len() {
            assert(rest[i - 1] == pairs[i]);
        }
        lemma_meta(rest, key, i - 1);
    }
}

/// A database opens where its three parameters can be read and every group has
/// its least and greatest key; else the first thing that is missing is reported.
pub proof fn lemma_open(pairs: Seq<KeyValue>, groups: Seq<RowGroupMeta>, g: int)
    requires
        0 <= g <= groups.len() <= usize::MAX,
        forall|i: int| 0 <= i < g ==> ((#[trigger] groups[i]).statistics matches
            StateStatistics::Int64 { min, max } && min is Some && max is Some),
    ensures
        ({
            let size = policy_db::meta(pairs, "board_size"@);
            let walls = policy_db::meta(pairs, "max_walls"@);
            let steps = policy_db::meta(pairs, "max_steps"@);
            let error = policy_db::open_error(pairs, groups);
            let metadata_error = policy_db::meta_error(pairs);
            &&& size is None ==> error == Some(OpenError::MissingBoardSize)
            &&& size is Some && walls is None ==> error == Some(OpenError::MissingMaxWalls)
            &&& size is Some && walls is Some && steps is None ==> error == Some(
                OpenError::MissingMaxSteps,
            )
            &&& size is None || walls is None || steps is None ==> metadata_error == error
            &&& size is Some && walls is Some && steps is Some ==> {
                &&& metadata_error is None
                &&& g == groups.len() ==> error is None
                &&& g < groups.len() ==> match groups[g].statistics {
                    StateStatistics::Missing => error == Some(
                        OpenError::MissingStatistics(g as usize),
                    ),
                    StateStatistics::Int64 { min, max } => {
                        &&& min is None ==> error == Some(OpenError::MissingMin)
                        &&& min is Some && max is None ==> error == Some(OpenError::MissingMax)
                    },
                    StateStatistics::Other(words) => error == Some(
                        OpenError::UnexpectedStatistics(words),
                    ),
                }
            }
        }),
{
    lemma_groups_error(groups, 0, g);
}

proof fn lemma_groups_error(groups: Seq<RowGroupMeta>, from: int, g: int)
    requires
        0 <= from <= g <= groups.len() <= usize::MAX,
        forall|i: int| 0 <= i < g ==> ((#[trigger] groups[i]).statistics matches
            StateStatistics::Int64 { min, max } && min is Some && max is Some),
    ensures
        policy_db::groups_error(groups, from) == policy_db::groups_error(groups, g),
    decreases g - from,
{
    if from < g {
        assert(groups[from].error(from as usize) is None);
        lemma_groups_error(groups, from + 1, g);
    }
}

/// What an opened database says of itself: the parameters and, group by group,
/// the numbers of the footer; the count of states is that of the metadata where
/// they give one, and else the number of rows.
pub proof fn lemma_opened(
    pairs: Seq<KeyValue>,
    groups: Seq<RowGroupMeta>,
    file: Seq<Seq<(i64, i8)>>,
    g: int,
)
    requires
        policy_db::open_error(pairs, groups) is None,
        groups.len() <= usize::MAX,
    ensures
        ({
            let index = policy_db::opened(pairs, groups);
            &&& Some(index.layout.board_size) == policy_db::meta(pairs, "board_size"@)
            &&& Some(index.layout.max_walls) == policy_db::meta(pairs, "max_walls"@)
            &&& Some(index.layout.max_steps) == policy_db::meta(pairs, "max_steps"@)
            &&& index.groups.len() == groups.len()
            &&& 0 <= g < groups.len() ==> {
                &&& index.groups[g].idx == g
                &&& index.groups[g].num_rows == groups[g].num_rows as u64
                &&& groups[g].statistics == (StateStatistics::Int64 {
                    min: Some(index.groups[g].min),
                    max: Some(index.groups[g].max),
                })
            }
            &&& policy_db::meta(pairs, "num_states"@) matches Some(n) ==> index.num_states == n
            &&& policy_db::meta(pairs, "num_states"@) is None && round_trip::footer_of(groups, file)
                && rows::all_rows(file).len() <= usize::MAX ==> index.num_states
                == rows::all_rows(file).len()
        }),
{
    let index = policy_db::opened(pairs, groups);
    if 0 <= g < groups.len() {
        lemma_no_error_at(groups, 0, g);
        assert(index.groups[g] == groups[g].stats(g as usize));
    }
    if let Some(n) = policy_db::meta(pairs, "num_states"@) {
        lemma_meta_bound(pairs, "num_states"@);
    } else if round_trip::footer_of(groups, file) {
        round_trip::lemma_footer_rows(groups, file, groups.len() as int);
        assert(file.take(file.len() as int) =~= file);
    }
}

proof fn lemma_no_error_at(groups: Seq<RowGroupMeta>, from: int, g: int)
    requires
        0 <= from <= g < groups.len(),
        policy_db::groups_error(groups, from) is None,
    ensures
        groups[g].error(g as usize) is None,
    decreases g - from,
{
    if from < g {
        lemma_no_error_at(groups, from + 1, g);
    }
}

proof fn lemma_meta_bound(pairs: Seq<KeyValue>, key: Seq<char>)
    ensures
        policy_db::meta(pairs, key) matches Some(n) ==> n <= usize::MAX,
    decreases pairs.len(),
{
    if pairs.len() > 0 {
        lemma_meta_bound(pairs.drop_first(), key);
    }
}

/// What is said of an error.
pub proof fn lemma_words(error: OpenError)
    ensures
        error is MissingBoardSize ==> error.words() == "missing board_size in parquet metadata"@,
        error is MissingMaxWalls ==> error.words() == "missing max_walls in parquet metadata"@,
        error is MissingMaxSteps ==> error.words() == "missing max_steps in parquet metadata"@,
        error matches OpenError::MissingStatistics(g) ==> error.words() == "row group "@
            + text::decimal(g as nat) + " missing statistics on state column"@,
        error is MissingMin ==> error.words() == "missing min stat on state"@,
        error is MissingMax ==> error.words() == "missing max stat on state"@,
        error matches OpenError::UnexpectedStatistics(s) ==> error.words()
            == "unexpected stats variant for state column: "@ + s@,
{
}

/// The rows before a group, by an index, are those of the groups before it in
/// every file of its sizes; a group holds the rows from there on.
pub proof fn lemma_rows_before(index: DbIndex, file: Seq<Seq<(i64, i8)>>, g: int)
    requires
        index.sizes(file),
        0 <= g <= file.len(),
    ensures
        policy_db::rows_in(index.groups, g) == rows::all_rows(file.take(g)).len(),
        index.total_rows() == rows::all_rows(file).len(),
    decreases g,
{
    index.lemma_total(file);
    if g > 0 {
        lemma_rows_before(index, file, g - 1);
        rows::lemma_rows_before_next(file, g - 1);
    } else {
        assert(file.take(0) =~= Seq::<Seq<(i64, i8)>>::empty());
    }
}

/// How often a number occurs.
pub open spec fn times(list: Seq<i64>, n: int) -> nat
    decreases list.len(),
{
    if list.len() == 0 {
        0
    } else {
        times(list.drop_last(), n) + if list.last() == n {
            1nat
        } else {
            0
        }
    }
}

proof fn lemma_times(list: Seq<i64>, n: i64)
    ensures
        times(list, n as int) == list.to_multiset().count(n),
    decreases list.len(),
{
    broadcast use vstd::seq_lib::group_to_multiset_ensures;

    if list.len() > 0 {
        let rest = list.drop_last();
        lemma_times(rest, n);
        assert(list =~= rest.push(list.last()));
        assert(rest.push(list.last()).to_multiset() =~= rest.to_multiset().insert(list.last()));
    } else {
        assert(list.to_multiset().len() == 0);
        assert(!list.contains(n));
    }
}

proof fn lemma_offsets_times(rowids: Seq<i64>, total: nat, n: int)
    ensures
        times(fetch::offsets_of(rowids, total), n - 1) == if 1 <= n <= total {
            times(rowids, n)
        } else {
            0
        },
    decreases rowids.len(),
{
    if rowids.len() > 0 {
        let rest = rowids.drop_last();
        lemma_offsets_times(rest, total, n);
        let before = fetch::offsets_of(rest, total);
        let offsets = fetch::offsets_of(rowids, total);
        if 1 <= rowids.last() <= total {
            assert(offsets.drop_last() =~= before);
        }
    }
}

/// How many of some numbers are row numbers of a file of so many rows.
pub open spec fn in_range(rowids: Seq<i64>, total: nat) -> nat
    decreases rowids.len(),
{
    if rowids.len() == 0 {
        0
    } else {
        in_range(rowids.drop_last(), total) + if rowids.last() >= 1 && rowids.last() <= total {
            1nat
        } else {
            0
        }
    }
}

proof fn lemma_offsets_len(rowids: Seq<i64>, total: nat)
    ensures
        fetch::offsets_of(rowids, total).len() == in_range(rowids, total),
    decreases rowids.len(),
{
    if rowids.len() > 0 {
        lemma_offsets_len(rowids.drop_last(), total);
    }
}

proof fn lemma_times_shifted(offsets: Seq<i64>, numbers: Seq<int>, n: int)
    requires
        numbers == offsets.map_values(|o: i64| o + 1),
    ensures
        times(offsets, n - 1) == numbers_times(numbers, n),
    decreases offsets.len(),
{
    if offsets.len() > 0 {
        assert(numbers.drop_last() =~= offsets.drop_last().map_values(|o: i64| o + 1));
        lemma_times_shifted(offsets.drop_last(), numbers.drop_last(), n);
    }
}

/// How often a row number occurs.
pub open spec fn numbers_times(list: Seq<int>, n: int) -> nat
    decreases list.len(),
{
    if list.len() == 0 {
        0
    } else {
        numbers_times(list.drop_last(), n) + if list.last() == n {
            1nat
        } else {
            0
        }
    }
}

/// A fetch gives every requested row as often as it was requested, in ascending
/// order of row numbers, which count from 1; numbers that are no rows give
/// nothing. `numbers` says which row each pair is.
pub proof fn lemma_fetched(
    progress: fetch::FetchProgress,
    file: Seq<Seq<(i64, i8)>>,
    rowids: Seq<i64>,
) -> (numbers: Seq<int>)
    requires
        progress.in_range(),
        progress.on_track(file),
        progress.done == progress.offsets.len(),
        fetch::are_offsets_of(progress.offsets, rowids, progress.index.total_rows()),
    ensures
        progress.found.len() == numbers.len(),
        progress.found.len() == in_range(rowids, rows::all_rows(file).len()),
        forall|n: int| #[trigger]
            numbers_times(numbers, n) == if 1 <= n <= rows::all_rows(file).len() {
                times(rowids, n)
            } else {
                0
            },
        forall|a: int, b: int| 0 <= a <= b < numbers.len() ==> #[trigger] numbers[a]
            <= #[trigger] numbers[b],
        forall|k: int| 0 <= k < numbers.len() ==> {
            let row = rows::all_rows(file)[#[trigger] numbers[k] - 1];
            &&& 1 <= numbers[k] <= rows::all_rows(file).len()
            &&& progress.found[k].0 == row.0 as u64
            &&& progress.found[k].1 == row.1
        },
{
    broadcast use vstd::seq_lib::group_to_multiset_ensures;

    let offsets = progress.offsets;
    let total = progress.index.total_rows();
    let wanted = fetch::offsets_of(rowids, total);
    progress.index.lemma_total(file);
    let numbers = offsets.map_values(|o: i64| o + 1);
    assert(offsets.to_multiset().len() == wanted.to_multiset().len());
    lemma_offsets_len(rowids, total);
    assert forall|n: int| #[trigger]
        numbers_times(numbers, n) == if 1 <= n <= rows::all_rows(file).len() {
            times(rowids, n)
        } else {
            0
        } by {
        lemma_times_shifted(offsets, numbers, n);
        lemma_offsets_times(rowids, total, n);
        if i64::MIN <= n - 1 <= i64::MAX {
            lemma_times(offsets, (n - 1) as i64);
            lemma_times(wanted, (n - 1) as i64);
        } else {
            lemma_times_none(offsets, n - 1);
            lemma_times_none(wanted, n - 1);
        }
    }
    assert forall|k: int| 0 <= k < numbers.len() implies {
        let row = rows::all_rows(file)[#[trigger] numbers[k] - 1];
        &&& 1 <= numbers[k] <= rows::all_rows(file).len()
        &&& progress.found[k].0 == row.0 as u64
        &&& progress.found[k].1 == row.1
    } by {
        assert(0 <= offsets[k] < total);
        assert(progress.found[k] == fetch::pair_of(rows::all_rows(file)[offsets[k] as int]));
    }
    assert forall|a: int, b: int| 0 <= a <= b < numbers.len() implies #[trigger] numbers[a]
        <= #[trigger] numbers[b] by {
        assert(offsets[a] <= offsets[b]);
    }
    numbers
}

proof fn lemma_times_none(list: Seq<i64>, n: int)
    requires
        !(i64::MIN <= n <= i64::MAX),
    ensures
        times(list, n) == 0,
    decreases list.len(),
{
    if list.len() > 0 {
        lemma_times_none(list.drop_last(), n);
    }
}

/// In a full database of a searched game, the value of every action is, for the
/// player who acts, the value under best play of the state that it leads to:
/// as it is for player 0, and negated for player 1.
pub proof fn lemma_action_values_for_actor(
    layout: Layout,
    start: u64,
    table: Map<u64, i8>,
    list: Seq<(i64, i8)>,
    data: u64,
    keys: Seq<i64>,
    i: int,
)
    requires
        layout.fits_word(),
        layout.valid(start),
        layout.searched(Map::empty(), start, table),
        layout.written_rows(table, 1, list),
        layout.passes(Map::empty(), start, data),
        lookup::are_keys_of(
            keys,
            crate::action_values::without_outcome(
                layout.plan(data).children,
                layout.plan(data).outcomes,
                layout.plan(data).actions.len() as int,
            ),
        ),
        0 <= i < layout.actions_of(data).len(),
    ensures
        ({
            let value = layout.value(
                Map::empty(),
                layout.child(data, layout.actions_of(data)[i]),
            ) as int;
            layout.plan(data).value_for_actor(rows::matching(list, keys), i)
                == if layout.word_board(data).player == 0 {
                value
            } else {
                -value
            }
        }),
{
    layout.lemma_action_values(start, table, list, data, keys);
    let plan = layout.plan(data);
    let pairs = rows::matching(list, keys);
    assert(plan.value_for_first(pairs, i) == Some(
        layout.value(Map::empty(), layout.child(data, layout.actions_of(data)[i])) as i32,
    ));
}

} // verus!
