//! Rows of a policy database: states with their values, in row groups.
//!
//! A state is stored as the signed number with the same 64 bits, and rows are
//! ordered by that number.

use vstd::prelude::*;

verus! {

/// The number as which a state is stored.
pub open spec fn key_of(state: u64) -> i64 {
    state as i64
}

/// The state that is stored as a number.
pub open spec fn state_of(key: i64) -> u64 {
    key as u64
}

/// States and the numbers as which they are stored correspond one to one.
pub proof fn lemma_key_round_trip(state: u64, key: i64)
    ensures
        state_of(key_of(state)) == state,
        key_of(state_of(key)) == key,
{
    assert((state as i64) as u64 == state) by (bit_vector);
    assert((key as u64) as i64 == key) by (bit_vector);
}

/// Whether rows are in ascending order of their keys, with no key twice.
pub open spec fn ascending(rows: Seq<(i64, i8)>) -> bool {
    forall|i: int, j: int| 0 <= i < j < rows.len() ==> (#[trigger] rows[i]).0 < (
    #[trigger] rows[j]).0
}

/// Whether numbers are in ascending order.
pub open spec fn sorted(keys: Seq<i64>) -> bool {
    forall|i: int, j: int| 0 <= i <= j < keys.len() ==> #[trigger] keys[i] <= #[trigger] keys[j]
}

/// Whether numbers are in ascending order, with none twice.
pub open spec fn strictly_sorted(keys: Seq<i64>) -> bool {
    forall|i: int, j: int| 0 <= i < j < keys.len() ==> #[trigger] keys[i] < #[trigger] keys[j]
}

/// Whether a row has the given key.
pub open spec fn has_key(rows: Seq<(i64, i8)>, key: i64) -> bool {
    exists|i: int| 0 <= i < rows.len() && (#[trigger] rows[i]).0 == key
}

/// The value in the row with the given key.
pub open spec fn value_at(rows: Seq<(i64, i8)>, key: i64) -> i8 {
    rows[choose|i: int| 0 <= i < rows.len() && (#[trigger] rows[i]).0 == key].1
}

/// The value in a row is the value at its key.
pub proof fn lemma_value_at(rows: Seq<(i64, i8)>, i: int)
    requires
        ascending(rows),
        0 <= i < rows.len(),
    ensures
        has_key(rows, rows[i].0),
        value_at(rows, rows[i].0) == rows[i].1,
{
    let key = rows[i].0;
    let k = choose|k: int| 0 <= k < rows.len() && (#[trigger] rows[k]).0 == key;
    assert(0 <= k < rows.len() && rows[k].0 == key);
    if k < i {
        assert(rows[k].0 < rows[i].0);
    } else if i < k {
        assert(rows[i].0 < rows[k].0);
    }
}

/// The keys that rows hold, each as state with its value, in the order of the keys.
pub open spec fn matching(rows: Seq<(i64, i8)>, keys: Seq<i64>) -> Seq<(u64, i32)>
    decreases keys.len(),
{
    if keys.len() == 0 {
        Seq::empty()
    } else {
        let before = matching(rows, keys.drop_last());
        if has_key(rows, keys.last()) {
            before.push((state_of(keys.last()), value_at(rows, keys.last()) as i32))
        } else {
            before
        }
    }
}

/// A key that no row holds adds nothing.
pub proof fn lemma_matching_nothing(rows: Seq<(i64, i8)>, keys: Seq<i64>, count: int)
    requires
        0 <= count <= keys.len(),
        forall|i: int| count <= i < keys.len() ==> !has_key(rows, #[trigger] keys[i]),
    ensures
        matching(rows, keys) == matching(rows, keys.take(count)),
    decreases keys.len() - count,
{
    if count == keys.len() {
        assert(keys.take(count) =~= keys);
    } else {
        lemma_matching_nothing(rows, keys, count + 1);
        assert(keys.take(count + 1).drop_last() =~= keys.take(count));
        assert(keys.take(count + 1).last() == keys[count]);
    }
}

/// Exactly the keys that rows hold are matched, each with its value.
pub proof fn lemma_matching(rows: Seq<(i64, i8)>, keys: Seq<i64>, pair: (u64, i32))
    ensures
        matching(rows, keys).contains(pair) <==> keys.contains(key_of(pair.0)) && has_key(
            rows,
            key_of(pair.0),
        ) && pair.1 == value_at(rows, key_of(pair.0)) as i32,
    decreases keys.len(),
{
    let key = key_of(pair.0);
    lemma_key_round_trip(pair.0, key);
    if keys.len() > 0 {
        let last = keys.last();
        let rest = keys.drop_last();
        lemma_matching(rows, rest, pair);
        lemma_key_round_trip(pair.0, last);
        let before = matching(rows, rest);
        assert(keys =~= rest.push(last));
        assert(keys.contains(key) <==> rest.contains(key) || key == last) by {
            if rest.contains(key) {
                let i = choose|i: int| 0 <= i < rest.len() && rest[i] == key;
                assert(keys[i] == key);
            }
            if key == last {
                assert(keys[keys.len() - 1] == key);
            }
            if keys.contains(key) {
                let i = choose|i: int| 0 <= i < keys.len() && keys[i] == key;
                if i < rest.len() {
                    assert(rest[i] == key);
                }
            }
        }
        if has_key(rows, last) {
            let new = (state_of(last), value_at(rows, last) as i32);
            let after = before.push(new);
            assert(after.contains(pair) <==> before.contains(pair) || pair == new) by {
                if before.contains(pair) {
                    let i = choose|i: int| 0 <= i < before.len() && before[i] == pair;
                    assert(after[i] == pair);
                }
                if pair == new {
                    assert(after[after.len() - 1] == pair);
                }
                if after.contains(pair) {
                    let i = choose|i: int| 0 <= i < after.len() && after[i] == pair;
                    if i < before.len() {
                        assert(before[i] == pair);
                    }
                }
            }
        }
    }
}

/// The rows of all groups, one group after the other.
pub open spec fn all_rows(file: Seq<Seq<(i64, i8)>>) -> Seq<(i64, i8)>
    decreases file.len(),
{
    if file.len() == 0 {
        Seq::empty()
    } else {
        all_rows(file.drop_last()) + file.last()
    }
}

/// The number of rows in the groups before one.
pub open spec fn rows_before(file: Seq<Seq<(i64, i8)>>, group: int) -> nat {
    all_rows(file.take(group)).len()
}

/// The rows of a group follow those of the groups before it.
pub proof fn lemma_row(file: Seq<Seq<(i64, i8)>>, group: int, row: int)
    requires
        0 <= group < file.len(),
        0 <= row < file[group].len(),
    ensures
        rows_before(file, group) + row < all_rows(file).len(),
        all_rows(file)[rows_before(file, group) + row] == file[group][row],
    decreases file.len(),
{
    if group == file.len() - 1 {
        assert(file.take(group) =~= file.drop_last());
    } else {
        lemma_row(file.drop_last(), group, row);
        assert(file.drop_last().take(group) =~= file.take(group));
    }
}

/// The rows up to the end of a group are those before it and its own.
pub proof fn lemma_rows_before_next(file: Seq<Seq<(i64, i8)>>, group: int)
    requires
        0 <= group < file.len(),
    ensures
        rows_before(file, group + 1) == rows_before(file, group) + file[group].len(),
        rows_before(file, 0) == 0,
        rows_before(file, file.len() as int) == all_rows(file).len(),
{
    assert(file.take(group + 1).drop_last() =~= file.take(group));
    assert(file.take(group + 1).last() == file[group]);
    assert(file.take(file.len() as int) =~= file);
}

/// Every row stands in some group.
pub proof fn lemma_group_of_row(file: Seq<Seq<(i64, i8)>>, i: int) -> (place: (int, int))
    requires
        0 <= i < all_rows(file).len(),
    ensures
        0 <= place.0 < file.len(),
        0 <= place.1 < file[place.0].len(),
        rows_before(file, place.0) + place.1 == i,
        file[place.0][place.1] == all_rows(file)[i],
    decreases file.len(),
{
    let rest = file.drop_last();
    assert(file.take(file.len() - 1) =~= rest);
    if i < all_rows(rest).len() {
        let place = lemma_group_of_row(rest, i);
        assert(rest.take(place.0) =~= file.take(place.0));
        place
    } else {
        (file.len() - 1, i - all_rows(rest).len())
    }
}

/// The two columns of one row group.
pub struct DecodedRowGroup {
    pub states: Vec<i64>,
    pub values: Vec<i8>,
}

impl DecodedRowGroup {
    /// Both columns have one entry per row.
    pub open spec fn wf(&self) -> bool {
        self.states@.len() == self.values@.len()
    }

    /// The rows of the group.
    pub open spec fn rows(&self) -> Seq<(i64, i8)> {
        Seq::new(self.states@.len(), |i: int| (self.states@[i], self.values@[i]))
    }

    /// A group without rows.
    pub fn new() -> (group: Self)
        ensures
            group.wf(),
            group.rows() == Seq::<(i64, i8)>::empty(),
    {
        let group = DecodedRowGroup { states: Vec::new(), values: Vec::new() };
        assert(group.rows() =~= Seq::<(i64, i8)>::empty());
        group
    }

    /// Appends the two columns of one batch of rows.
    pub fn append_batch(&mut self, states: &[i64], values: &[i8])
        requires
            old(self).wf(),
            states@.len() == values@.len(),
        ensures
            final(self).wf(),
            final(self).rows() == old(self).rows() + Seq::new(
                states@.len(),
                |i: int| (states@[i], values@[i]),
            ),
    {
        self.states.extend_from_slice(states);
        self.values.extend_from_slice(values);
        assert(self.rows() =~= old(self).rows() + Seq::new(
            states@.len(),
            |i: int| (states@[i], values@[i]),
        ));
    }

    /// The number of the row with the given key, if there is one. The rows
    /// have to be in ascending order to be sure to find it.
    pub fn find(&self, key: i64) -> (row: Option<usize>)
        ensures
            row matches Some(r) ==> r < self.states@.len() && self.states@[r as int] == key,
            row is None && strictly_sorted(self.states@) ==> !self.states@.contains(key),
    {
        let mut low: usize = 0;
        let mut high: usize = self.states.len();
        while low < high
            invariant
                low <= high <= self.states@.len(),
                strictly_sorted(self.states@) ==> forall|i: int|
                    0 <= i < self.states@.len() && #[trigger] self.states@[i] == key ==> low <= i
                        < high,
            decreases high - low,
        {
            let middle: usize = low + (high - low) / 2;
            let found: i64 = self.states[middle];
            if found == key {
                return Some(middle);
            }
            if found < key {
                low = middle + 1;
            } else {
                high = middle;
            }
        }
        None
    }
}

/// Calls `slice::sort_unstable`: the same numbers, in ascending order.
#[verifier::external_body]
pub(crate) fn sort_keys(keys: &mut Vec<i64>)
    ensures
        sorted(final(keys)@),
        final(keys)@.to_multiset() == old(keys)@.to_multiset(),
{
    keys.sort_unstable();
}

/// Calls `slice::sort_unstable_by_key` with the key of a row: the same rows, in
/// ascending order of their keys.
#[verifier::external_body]
pub(crate) fn sort_rows(rows: &mut Vec<(i64, i8)>)
    ensures
        forall|i: int, j: int| 0 <= i <= j < final(rows)@.len() ==> (
        #[trigger] final(rows)@[i]).0 <= (#[trigger] final(rows)@[j]).0,
        final(rows)@.to_multiset() == old(rows)@.to_multiset(),
{
    rows.sort_unstable_by_key(|row| row.0);
}

} // verus!
