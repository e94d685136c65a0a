//! Lookups of states in a policy database.
//!
//! A lookup walks the row groups in order. It says which group it needs next,
//! takes in the group's rows, and goes on; whoever runs it does the reading.

use vstd::prelude::*;
use crate::policy_db::{DbIndex, PolicyDb};
use crate::rows;
use crate::rows::DecodedRowGroup;

verus! {

/// Rows of later groups come later.
pub(crate) proof fn lemma_rows_before_grow(file: Seq<Seq<(i64, i8)>>, a: int, b: int)
    requires
        0 <= a <= b <= file.len(),
    ensures
        rows::rows_before(file, a) <= rows::rows_before(file, b),
    decreases b - a,
{
    if a < b {
        rows::lemma_rows_before_next(file, a);
        lemma_rows_before_grow(file, a + 1, b);
    }
}

/// In a file in order, rows that come later have greater keys.
proof fn lemma_keys_grow(file: Seq<Seq<(i64, i8)>>, g: int, j: int, g2: int, j2: int)
    requires
        rows::ascending(rows::all_rows(file)),
        0 <= g < file.len(),
        0 <= j < file[g].len(),
        0 <= g2 < file.len(),
        0 <= j2 < file[g2].len(),
        g < g2 || (g == g2 && j < j2),
    ensures
        file[g][j].0 < file[g2][j2].0,
{
    rows::lemma_row(file, g, j);
    rows::lemma_row(file, g2, j2);
    if g < g2 {
        rows::lemma_rows_before_next(file, g);
        lemma_rows_before_grow(file, g + 1, g2);
    }
    let a = rows::rows_before(file, g) + j;
    let b = rows::rows_before(file, g2) + j2;
    assert(a < b);
    assert(rows::all_rows(file)[a].0 < rows::all_rows(file)[b].0);
}

impl DbIndex {
    /// A key above every group before one, and below that group, is in no row.
    proof fn lemma_absent(self, file: Seq<Seq<(i64, i8)>>, group: int, key: i64)
        requires
            self.describes(file),
            0 <= group <= file.len(),
            forall|g: int| 0 <= g < group ==> (#[trigger] self.groups[g]).max < key,
            group < file.len() ==> key < self.groups[group].min,
        ensures
            !rows::has_key(rows::all_rows(file), key),
    {
        let all = rows::all_rows(file);
        if rows::has_key(all, key) {
            let i = choose|i: int| 0 <= i < all.len() && (#[trigger] all[i]).0 == key;
            let (g, j) = rows::lemma_group_of_row(file, i);
            let last = file[g].len() - 1;
            if g < group {
                assert(self.groups[g].max < key);
                if j < last {
                    lemma_keys_grow(file, g, j, g, last);
                }
            } else {
                assert(file[group].len() > 0);
                if g > group || j > 0 {
                    lemma_keys_grow(file, group, 0, g, j);
                }
            }
        }
    }

    /// A key between the least and the greatest of a group is in no row but
    /// the group's.
    proof fn lemma_only_here(self, file: Seq<Seq<(i64, i8)>>, group: int, key: i64)
        requires
            self.describes(file),
            0 <= group < file.len(),
            self.groups[group].min <= key <= self.groups[group].max,
        ensures
            rows::has_key(rows::all_rows(file), key) <==> rows::has_key(file[group], key),
            rows::has_key(file[group], key) ==> rows::value_at(rows::all_rows(file), key)
                == rows::value_at(file[group], key),
    {
        let all = rows::all_rows(file);
        let here = file[group];
        assert(here.len() > 0);
        let last = here.len() - 1;
        if rows::has_key(all, key) {
            let i = choose|i: int| 0 <= i < all.len() && (#[trigger] all[i]).0 == key;
            let (g, j) = rows::lemma_group_of_row(file, i);
            if g < group {
                lemma_keys_grow(file, g, j, group, 0);
            } else if g > group {
                lemma_keys_grow(file, group, last, g, j);
            }
            assert(here[j].0 == key);
        }
        if rows::has_key(here, key) {
            let j = choose|j: int| 0 <= j < here.len() && (#[trigger] here[j]).0 == key;
            rows::lemma_row(file, group, j);
            rows::lemma_value_at(all, rows::rows_before(file, group) + j);
            assert forall|a: int, b: int| 0 <= a < b < here.len() implies (#[trigger] here[a]).0 < (
            #[trigger] here[b]).0 by {
                lemma_keys_grow(file, group, a, group, b);
            }
            rows::lemma_value_at(here, j);
        }
    }

    /// The keys of a group's range that a file holds are those that the group holds.
    proof fn lemma_matching_here(
        self,
        file: Seq<Seq<(i64, i8)>>,
        group: int,
        keys: Seq<i64>,
        from: int,
        to: int,
    )
        requires
            self.describes(file),
            0 <= group < file.len(),
            0 <= from <= to <= keys.len(),
            forall|i: int| from <= i < to ==> self.groups[group].min <= #[trigger] keys[i]
                <= self.groups[group].max,
        ensures
            rows::matching(rows::all_rows(file), keys.take(to)) == rows::matching(
                rows::all_rows(file),
                keys.take(from),
            ) + rows::matching(file[group], keys.subrange(from, to)),
        decreases to - from,
    {
        let all = rows::all_rows(file);
        if from == to {
            assert(keys.subrange(from, to) =~= Seq::<i64>::empty());
            assert(rows::matching(all, keys.take(to)) =~= rows::matching(all, keys.take(from))
                + rows::matching(file[group], keys.subrange(from, to)));
        } else {
            self.lemma_matching_here(file, group, keys, from, to - 1);
            let key = keys[to - 1];
            self.lemma_only_here(file, group, key);
            assert(keys.take(to).drop_last() =~= keys.take(to - 1));
            assert(keys.subrange(from, to).drop_last() =~= keys.subrange(from, to - 1));
            assert(rows::matching(all, keys.take(to)) =~= rows::matching(all, keys.take(from))
                + rows::matching(file[group], keys.subrange(from, to)));
        }
    }
}

/// Whether numbers are the keys of states: in ascending order, each once.
pub open spec fn are_keys_of(keys: Seq<i64>, states: Seq<u64>) -> bool {
    &&& rows::strictly_sorted(keys)
    &&& forall|state: u64| #[trigger]
        states.contains(state) <==> keys.contains(rows::key_of(state))
}

/// How far a lookup has come.
pub struct LookupProgress {
    /// The database.
    pub index: DbIndex,
    /// The keys that are looked up.
    pub keys: Seq<i64>,
    /// The number of keys that are settled.
    pub settled: int,
    /// The group that is next.
    pub group: int,
    /// What has been found.
    pub found: Seq<(u64, i32)>,
}

impl LookupProgress {
    /// Whether nothing is left to look up, or nowhere to look.
    pub open spec fn finished(self) -> bool {
        self.settled == self.keys.len() || self.group == self.index.groups.len()
    }

    /// Whether the next key lies in the range of the next group.
    pub open spec fn needs_group(self) -> bool {
        &&& 0 <= self.settled < self.keys.len()
        &&& 0 <= self.group < self.index.groups.len()
        &&& self.index.groups[self.group].min <= self.keys[self.settled]
            <= self.index.groups[self.group].max
    }

    /// Whether, for a file that the index describes, the settled keys have been
    /// matched and the others lie above every group before the next.
    pub open spec fn on_track(self, file: Seq<Seq<(i64, i8)>>) -> bool {
        &&& self.index.describes(file)
        &&& self.found == rows::matching(rows::all_rows(file), self.keys.take(self.settled))
        &&& forall|i: int, g: int|
            #![trigger self.keys[i], self.index.groups[g]]
            self.settled <= i < self.keys.len() && 0 <= g < self.group ==> self.index.groups[g].max
                < self.keys[i]
    }

    /// The same database and keys.
    pub open spec fn same_lookup(self, other: LookupProgress) -> bool {
        self.index == other.index && self.keys == other.keys
    }

    /// What a finished lookup has found is what the file holds.
    pub proof fn lemma_finished(self, file: Seq<Seq<(i64, i8)>>)
        requires
            self.on_track(file),
            self.finished(),
            0 <= self.settled <= self.keys.len(),
        ensures
            self.found == rows::matching(rows::all_rows(file), self.keys),
    {
        if self.settled == self.keys.len() {
            assert(self.keys.take(self.settled) =~= self.keys);
        } else {
            assert forall|i: int| self.settled <= i < self.keys.len() implies !rows::has_key(
                rows::all_rows(file),
                #[trigger] self.keys[i],
            ) by {
                assert forall|g: int| 0 <= g < self.group implies (
                #[trigger] self.index.groups[g]).max < self.keys[i] by {}
                self.index.lemma_absent(file, self.group, self.keys[i]);
            }
            rows::lemma_matching_nothing(rows::all_rows(file), self.keys, self.settled);
        }
    }
}

/// A lookup of states in a database.
pub struct StateLookup<'a> {
    db: &'a PolicyDb,
    sorted: Vec<i64>,
    q_idx: usize,
    rg_idx: usize,
    results: Vec<(u64, i32)>,
}

impl<'a> View for StateLookup<'a> {
    type V = LookupProgress;

    closed spec fn view(&self) -> LookupProgress {
        LookupProgress {
            index: self.db@,
            keys: self.sorted@,
            settled: self.q_idx as int,
            group: self.rg_idx as int,
            found: self.results@,
        }
    }
}

/// Sorted numbers, each once.
fn without_repeats(keys: &Vec<i64>) -> (unique: Vec<i64>)
    requires
        rows::sorted(keys@),
    ensures
        rows::strictly_sorted(unique@),
        forall|k: i64| #[trigger] unique@.contains(k) <==> keys@.contains(k),
{
    let mut unique: Vec<i64> = Vec::new();
    let mut i: usize = 0;
    while i < keys.len()
        invariant
            i <= keys@.len(),
            rows::sorted(keys@),
            rows::strictly_sorted(unique@),
            forall|k: int| 0 <= k < unique@.len() ==> keys@.contains(#[trigger] unique@[k]),
            forall|k: int| 0 <= k < i ==> unique@.contains(#[trigger] keys@[k]),
            i > 0 ==> unique@.len() > 0 && unique@.last() == keys@[i - 1],
            i == 0 ==> unique@.len() == 0,
        decreases keys@.len() - i,
    {
        let key: i64 = keys[i];
        let ghost before = unique@;
        if unique.len() == 0 || unique[unique.len() - 1] != key {
            proof {
                assert forall|k: int| 0 <= k < before.len() implies #[trigger] before[k] < key by {
                    assert(keys@[i - 1] <= keys@[i as int]);
                    if k < before.len() - 1 {
                        assert(before[k] < before[before.len() - 1]);
                    }
                }
            }
            unique.push(key);
            proof {
                assert(unique@[unique@.len() - 1] == key);
                assert(keys@.contains(key)) by {
                    assert(keys@[i as int] == key);
                }
                assert forall|k: int| 0 <= k < i implies unique@.contains(#[trigger] keys@[k]) by {
                    let j = choose|j: int| 0 <= j < before.len() && before[j] == keys@[k];
                    assert(unique@[j] == keys@[k]);
                }
            }
        } else {
            assert(unique@[unique@.len() - 1] == key);
        }
        i = i + 1;
    }
    assert forall|k: i64| #[trigger] unique@.contains(k) <==> keys@.contains(k) by {
        if unique@.contains(k) {
            let j = choose|j: int| 0 <= j < unique@.len() && unique@[j] == k;
            assert(keys@.contains(unique@[j]));
        }
        if keys@.contains(k) {
            let j = choose|j: int| 0 <= j < keys@.len() && keys@[j] == k;
            assert(unique@.contains(keys@[j]));
        }
    }
    unique
}

impl PolicyDb {
    /// Starts a lookup of the values of the given states.
    ///
    /// The lookup finds a state with its value for each state that the database
    /// holds, in the order of the file and each once. States that are not present
    /// are left out.
    pub fn lookup_values_by_state<'a>(&'a self, states: &[u64]) -> (lookup: StateLookup<'a>)
        ensures
            lookup@.index == self@,
            are_keys_of(lookup@.keys, states@),
            lookup@.settled == 0,
            lookup@.group == 0,
            lookup@.found == Seq::<(u64, i32)>::empty(),
            forall|file: Seq<Seq<(i64, i8)>>|
                self@.describes(file) ==> #[trigger] lookup@.on_track(file),
    {
        let mut keys: Vec<i64> = Vec::new();
        let mut i: usize = 0;
        while i < states.len()
            invariant
                i <= states@.len(),
                keys@ == states@.take(i as int).map_values(|s: u64| rows::key_of(s)),
            decreases states@.len() - i,
        {
            keys.push(states[i] as i64);
            assert(keys@ =~= states@.take(i + 1).map_values(|s: u64| rows::key_of(s)));
            i = i + 1;
        }
        let ghost plain = keys@;
        assert(plain =~= states@.map_values(|s: u64| rows::key_of(s)));
        rows::sort_keys(&mut keys);
        let sorted: Vec<i64> = without_repeats(&keys);
        proof {
            lemma_same_members(plain, keys@);
            assert forall|state: u64| #[trigger]
                states@.contains(state) <==> sorted@.contains(rows::key_of(state)) by {
                if states@.contains(state) {
                    let j = choose|j: int| 0 <= j < states@.len() && states@[j] == state;
                    assert(plain[j] == rows::key_of(state));
                    assert(plain.contains(rows::key_of(state)));
                }
                if plain.contains(rows::key_of(state)) {
                    let j = choose|j: int| 0 <= j < plain.len() && plain[j] == rows::key_of(state);
                    rows::lemma_key_round_trip(state, 0);
                    rows::lemma_key_round_trip(states@[j], 0);
                    assert(states@[j] == state);
                }
            }
        }
        let lookup = StateLookup {
            db: self,
            sorted,
            q_idx: 0,
            rg_idx: 0,
            results: Vec::new(),
        };
        assert(lookup@.keys.take(0) =~= Seq::<i64>::empty());
        lookup
    }
}

/// The rows of groups that are at hand.
pub open spec fn file_of(groups: Seq<DecodedRowGroup>) -> Seq<Seq<(i64, i8)>> {
    groups.map_values(|group: DecodedRowGroup| group.rows())
}

impl PolicyDb {
    /// The values of the given states, where all row groups are at hand.
    pub fn lookup_values_in(&self, groups: &Vec<DecodedRowGroup>, states: &[u64]) -> (pairs: Vec<
        (u64, i32),
    >)
        requires
            forall|g: int| 0 <= g < groups@.len() ==> (#[trigger] groups@[g]).wf(),
            self@.describes(file_of(groups@)),
        ensures
            exists|keys: Seq<i64>| #[trigger]
                are_keys_of(keys, states@) && pairs@ == rows::matching(
                    rows::all_rows(file_of(groups@)),
                    keys,
                ),
    {
        let ghost file = file_of(groups@);
        let mut lookup = self.lookup_values_by_state(states);
        let ghost keys = lookup@.keys;
        let mut next: Option<usize> = lookup.next_group();
        proof {
            use_type_invariant(&lookup);
            lookup.lemma_inv();
        }
        while next.is_some()
            invariant
                file == file_of(groups@),
                lookup@.index == self@,
                lookup@.keys == keys,
                forall|g: int| 0 <= g < groups@.len() ==> (#[trigger] groups@[g]).wf(),
                self@.describes(file),
                lookup@.on_track(file),
                0 <= lookup@.group <= self@.groups.len(),
                next is None <==> lookup@.finished(),
                next matches Some(g) ==> lookup@.needs_group() && lookup@.group == g,
            decreases self@.groups.len() - lookup@.group + if next is Some { 1nat } else { 0 },
        {
            let group: usize = next.unwrap();
            assert(file[group as int] == groups@[group as int].rows());
            lookup.read_group(&groups[group]);
            next = lookup.next_group();
            proof {
                use_type_invariant(&lookup);
                lookup.lemma_inv();
            }
        }
        lookup.into_pairs()
    }
}

/// Sequences with the same elements have the same members.
pub(crate) proof fn lemma_same_members(a: Seq<i64>, b: Seq<i64>)
    requires
        a.to_multiset() == b.to_multiset(),
    ensures
        forall|k: i64| #[trigger] a.contains(k) <==> b.contains(k),
{
    broadcast use vstd::seq_lib::group_to_multiset_ensures;

    assert forall|k: i64| #[trigger] a.contains(k) <==> b.contains(k) by {
        assert(a.contains(k) <==> a.to_multiset().count(k) > 0);
        assert(b.contains(k) <==> b.to_multiset().count(k) > 0);
    }
}

impl<'a> StateLookup<'a> {
    /// The numbers stay within the lists that they index.
    #[verifier::type_invariant]
    pub closed spec fn inv(self) -> bool {
        &&& rows::strictly_sorted(self.sorted@)
        &&& self.q_idx <= self.sorted@.len()
        &&& self.rg_idx <= self.db@.groups.len()
    }

    /// What a caller may rely on of every lookup.
    pub proof fn lemma_inv(self)
        requires
            self.inv(),
        ensures
            rows::strictly_sorted(self@.keys),
            0 <= self@.settled <= self@.keys.len(),
            0 <= self@.group <= self@.index.groups.len(),
    {
    }

    /// The next row group that the lookup needs, or `None` when it is finished.
    /// Keys that cannot occur and groups that cannot match are passed over.
    pub fn next_group(&mut self) -> (group: Option<usize>)
        ensures
            final(self)@.same_lookup(old(self)@),
            final(self)@.found == old(self)@.found,
            final(self)@.settled >= old(self)@.settled,
            final(self)@.group >= old(self)@.group,
            group is None <==> final(self)@.finished(),
            group matches Some(g) ==> final(self)@.needs_group() && final(self)@.group == g,
            forall|file: Seq<Seq<(i64, i8)>>|
                old(self)@.on_track(file) ==> #[trigger] final(self)@.on_track(file),
    {
        proof {
            use_type_invariant(&*self);
        }
        let ghost start = self@;
        while self.q_idx < self.sorted.len() && self.rg_idx < self.db.num_row_groups()
            invariant
                self.inv(),
                start == old(self)@,
                self@.same_lookup(start),
                self@.found == start.found,
                self@.settled >= start.settled,
                self@.group >= start.group,
                forall|file: Seq<Seq<(i64, i8)>>|
                    start.on_track(file) ==> #[trigger] self@.on_track(file),
            decreases self.sorted@.len() - self.q_idx + self.db@.groups.len() - self.rg_idx,
        {
            let key: i64 = self.sorted[self.q_idx];
            let stats = self.db.row_group(self.rg_idx);
            let ghost before = self@;
            if key < stats.min {
                self.q_idx = self.q_idx + 1;
                proof {
                    assert forall|file: Seq<Seq<(i64, i8)>>| start.on_track(file) implies #[trigger]
                    self@.on_track(file) by {
                        assert(before.on_track(file));
                        assert forall|g: int| 0 <= g < before.group implies (
                        #[trigger] before.index.groups[g]).max < key by {
                            assert(before.keys[before.settled] == key);
                        }
                        before.index.lemma_absent(file, before.group, key);
                        assert(before.keys.take(before.settled + 1).drop_last()
                            =~= before.keys.take(before.settled));
                    }
                }
            } else if key > stats.max {
                self.rg_idx = self.rg_idx + 1;
                proof {
                    assert forall|file: Seq<Seq<(i64, i8)>>| start.on_track(file) implies #[trigger]
                    self@.on_track(file) by {
                        assert(before.on_track(file));
                        assert forall|i: int, g: int|
                            #![trigger self@.keys[i], self@.index.groups[g]]
                            self@.settled <= i < self@.keys.len() && 0 <= g
                                < self@.group implies self@.index.groups[g].max < self@.keys[i] by {
                            if g == before.group && i > before.settled {
                                assert(before.keys[before.settled] < before.keys[i]);
                            }
                        }
                    }
                }
            } else {
                return Some(self.rg_idx);
            }
        }
        None
    }

    /// Takes in the rows of the group that `next_group` has asked for: settles
    /// every key of the group's range, and goes on to the group after it.
    pub fn read_group(&mut self, group: &DecodedRowGroup)
        requires
            old(self)@.needs_group(),
            group.wf(),
        ensures
            final(self)@.same_lookup(old(self)@),
            final(self)@.group == old(self)@.group + 1,
            old(self)@.settled < final(self)@.settled <= old(self)@.keys.len(),
            forall|i: int|
                old(self)@.settled <= i < old(self)@.keys.len() ==> (i < final(self)@.settled
                    <==> #[trigger] old(self)@.keys[i] <= old(self)@.index.groups[old(
                    self,
                )@.group].max),
            rows::strictly_sorted(group.states@) ==> final(self)@.found == old(self)@.found
                + rows::matching(
                group.rows(),
                old(self)@.keys.subrange(old(self)@.settled, final(self)@.settled),
            ),
            forall|file: Seq<Seq<(i64, i8)>>|
                old(self)@.on_track(file) && group.rows() == file[old(self)@.group]
                    ==> #[trigger] final(self)@.on_track(file),
    {
        proof {
            use_type_invariant(&*self);
        }
        let ghost start = self@;
        let stats = self.db.row_group(self.rg_idx);
        let mut results: Vec<(u64, i32)> = Vec::new();
        std::mem::swap(&mut results, &mut self.results);
        assert(start.keys.subrange(start.settled, start.settled) =~= Seq::<i64>::empty());
        while self.q_idx < self.sorted.len() && self.sorted[self.q_idx] <= stats.max
            invariant
                self.inv(),
                group.wf(),
                self@.same_lookup(start),
                self@.group == start.group,
                start.needs_group(),
                rows::strictly_sorted(start.keys),
                stats == start.index.groups[start.group],
                start.settled <= self@.settled <= start.keys.len(),
                forall|i: int|
                    start.settled <= i < self@.settled ==> #[trigger] start.keys[i] <= stats.max,
                rows::strictly_sorted(group.states@) ==> results@ == start.found
                    + rows::matching(
                    group.rows(),
                    start.keys.subrange(start.settled, self@.settled),
                ),
            decreases self.sorted@.len() - self.q_idx,
        {
            let key: i64 = self.sorted[self.q_idx];
            let ghost before = self@;
            if key >= stats.min {
                if let Some(position) = group.find(key) {
                    results.push((key as u64, group.values[position] as i32));
                }
            }
            self.q_idx = self.q_idx + 1;
            proof {
                assert(start.keys[start.settled] <= key) by {
                    if start.settled < before.settled {
                        assert(start.keys[start.settled] < start.keys[before.settled]);
                    }
                }
                if rows::strictly_sorted(group.states@) {
                    let part = start.keys.subrange(start.settled, self@.settled);
                    assert(part.drop_last() =~= start.keys.subrange(
                        start.settled,
                        before.settled,
                    ));
                    assert(part.last() == key);
                    lemma_group_key(*group, key);
                    assert(results@ =~= start.found + rows::matching(group.rows(), part));
                }
            }
        }
        proof {
            assert forall|i: int| start.settled <= i < start.keys.len() implies (i < self@.settled
                <==> #[trigger] start.keys[i] <= stats.max) by {
                if i >= self@.settled {
                    if i > self@.settled {
                        assert(start.keys[self@.settled] < start.keys[i]);
                    }
                }
            }
            if self@.settled == start.settled {
                assert(start.keys[start.settled] <= stats.max);
            }
        }
        let ghost last = self@;
        self.results = results;
        let groups: usize = self.db.num_row_groups();
        assert(self.rg_idx < groups);
        self.rg_idx = self.rg_idx + 1;
        proof {
            assert forall|file: Seq<Seq<(i64, i8)>>|
                start.on_track(file) && group.rows() == file[start.group] implies #[trigger]
            self@.on_track(file) by {
                lemma_group_sorted(start.index, file, start.group, *group);
                assert forall|i: int|
                    start.settled <= i < last.settled implies start.index.groups[start.group].min
                    <= #[trigger] start.keys[i] <= start.index.groups[start.group].max by {
                    if i > start.settled {
                        assert(start.keys[start.settled] < start.keys[i]);
                    }
                }
                start.index.lemma_matching_here(
                    file,
                    start.group,
                    start.keys,
                    start.settled,
                    last.settled,
                );
            }
        }
    }

    /// What the lookup has found.
    pub fn into_pairs(self) -> (pairs: Vec<(u64, i32)>)
        ensures
            pairs@ == self@.found,
            forall|file: Seq<Seq<(i64, i8)>>| #[trigger]
                self@.on_track(file) && self@.finished() ==> pairs@ == rows::matching(
                    rows::all_rows(file),
                    self@.keys,
                ),
    {
        proof {
            use_type_invariant(&self);
            assert forall|file: Seq<Seq<(i64, i8)>>| #[trigger]
                self@.on_track(file) && self@.finished() implies self@.found == rows::matching(
                rows::all_rows(file),
                self@.keys,
            ) by {
                self@.lemma_finished(file);
            }
        }
        self.results
    }
}

/// In a group with sorted states, a key is found where the rows hold it.
proof fn lemma_group_key(group: DecodedRowGroup, key: i64)
    requires
        group.wf(),
        rows::strictly_sorted(group.states@),
    ensures
        rows::has_key(group.rows(), key) <==> group.states@.contains(key),
        forall|i: int|
            0 <= i < group.states@.len() && #[trigger] group.states@[i] == key ==> rows::value_at(
                group.rows(),
                key,
            ) == group.values@[i],
{
    let list = group.rows();
    assert(rows::ascending(list)) by {
        assert forall|i: int, j: int| 0 <= i < j < list.len() implies (#[trigger] list[i]).0 < (
        #[trigger] list[j]).0 by {
            assert(group.states@[i] < group.states@[j]);
        }
    }
    if rows::has_key(list, key) {
        let i = choose|i: int| 0 <= i < list.len() && (#[trigger] list[i]).0 == key;
        assert(group.states@[i] == key);
    }
    assert forall|i: int| 0 <= i < group.states@.len() && #[trigger] group.states@[i]
        == key implies rows::has_key(list, key) && rows::value_at(list, key) == group.values@[i] by {
        assert(list[i].0 == key);
        rows::lemma_value_at(list, i);
    }
}

/// The rows of a group of a file in order are in order.
proof fn lemma_group_sorted(
    index: DbIndex,
    file: Seq<Seq<(i64, i8)>>,
    g: int,
    group: DecodedRowGroup,
)
    requires
        index.describes(file),
        0 <= g < file.len(),
        group.wf(),
        group.rows() == file[g],
    ensures
        rows::strictly_sorted(group.states@),
{
    assert forall|i: int, j: int| 0 <= i < j < group.states@.len() implies #[trigger] group.states@[i]
        < #[trigger] group.states@[j] by {
        lemma_keys_grow(file, g, i, g, j);
        assert(group.rows()[i].0 == group.states@[i]);
        assert(group.rows()[j].0 == group.states@[j]);
    }
}

} // verus!
