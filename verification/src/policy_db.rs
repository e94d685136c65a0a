//! A policy database: precomputed minimax values in row groups, sorted by state.
//!
//! The footer of the file holds metadata as key-value pairs (board_size,
//! max_walls, max_steps, num_states) and statistics of each row group (its least
//! and greatest state). Lookups use the statistics to decode only the groups
//! they need; the whole file is never held in memory.

use vstd::prelude::*;
use crate::layout::Layout;
use crate::q_game_mechanics::QGameMechanics;
use crate::rows;
use crate::text;

verus! {

/// A key-value pair of the metadata.
pub struct KeyValue {
    pub key: String,
    pub value: Option<String>,
}

/// What the metadata say of the state column of a row group.
pub enum StateStatistics {
    /// There are no statistics.
    Missing,
    /// Statistics of a signed 64-bit column.
    Int64 { min: Option<i64>, max: Option<i64> },
    /// Statistics of another kind of column, described in words.
    Other(String),
}

/// What the metadata say of a row group.
pub struct RowGroupMeta {
    pub num_rows: i64,
    pub statistics: StateStatistics,
}

/// What is kept of a row group's statistics to prune lookups. The least and
/// greatest keys are compared as signed numbers, which is the order of the file.
#[derive(Clone, Copy, Debug)]
pub struct RowGroupStats {
    pub idx: usize,
    pub min: i64,
    pub max: i64,
    pub num_rows: u64,
}

/// Why a database cannot be opened.
#[derive(Debug)]
pub enum OpenError {
    MissingBoardSize,
    MissingMaxWalls,
    MissingMaxSteps,
    MissingStatistics(usize),
    MissingMin,
    MissingMax,
    UnexpectedStatistics(String),
}

impl OpenError {
    /// The error in words.
    pub open spec fn words(self) -> Seq<char> {
        match self {
            OpenError::MissingBoardSize => "missing board_size in parquet metadata"@,
            OpenError::MissingMaxWalls => "missing max_walls in parquet metadata"@,
            OpenError::MissingMaxSteps => "missing max_steps in parquet metadata"@,
            OpenError::MissingStatistics(group) => "row group "@ + text::decimal(group as nat)
                + " missing statistics on state column"@,
            OpenError::MissingMin => "missing min stat on state"@,
            OpenError::MissingMax => "missing max stat on state"@,
            OpenError::UnexpectedStatistics(statistics) =>
                "unexpected stats variant for state column: "@ + statistics@,
        }
    }

    /// The error in words.
    pub fn message(&self) -> (message: String)
        ensures
            message@ == self.words(),
    {
        let mut message = String::new();
        match self {
            OpenError::MissingBoardSize => message.append("missing board_size in parquet metadata"),
            OpenError::MissingMaxWalls => message.append("missing max_walls in parquet metadata"),
            OpenError::MissingMaxSteps => message.append("missing max_steps in parquet metadata"),
            OpenError::MissingStatistics(group) => {
                message.append("row group ");
                text::push_decimal(&mut message, *group);
                message.append(" missing statistics on state column");
            },
            OpenError::MissingMin => message.append("missing min stat on state"),
            OpenError::MissingMax => message.append("missing max stat on state"),
            OpenError::UnexpectedStatistics(statistics) => {
                message.append("unexpected stats variant for state column: ");
                message.append(statistics.as_str());
            },
        }
        assert(message@ =~= self.words());
        message
    }
}

/// The pairs of the metadata; none where there is no list.
pub open spec fn pairs_of(kv: Option<&Vec<KeyValue>>) -> Seq<KeyValue> {
    match kv {
        Some(list) => list@,
        None => Seq::empty(),
    }
}

/// The number that the first pair with a key holds, if it holds one.
pub open spec fn meta(pairs: Seq<KeyValue>, key: Seq<char>) -> Option<nat>
    decreases pairs.len(),
{
    if pairs.len() == 0 {
        None
    } else if pairs[0].key@ == key {
        match pairs[0].value {
            Some(value) => text::parsed(value@),
            None => None,
        }
    } else {
        meta(pairs.drop_first(), key)
    }
}

/// The parameters that the metadata give.
pub open spec fn meta_layout(pairs: Seq<KeyValue>) -> Layout {
    Layout {
        board_size: meta(pairs, "board_size"@).unwrap(),
        max_walls: meta(pairs, "max_walls"@).unwrap(),
        max_steps: meta(pairs, "max_steps"@).unwrap(),
    }
}

/// Why the metadata give no parameters, if they do not.
pub open spec fn meta_error(pairs: Seq<KeyValue>) -> Option<OpenError> {
    if meta(pairs, "board_size"@) is None {
        Some(OpenError::MissingBoardSize)
    } else if meta(pairs, "max_walls"@) is None {
        Some(OpenError::MissingMaxWalls)
    } else if meta(pairs, "max_steps"@) is None {
        Some(OpenError::MissingMaxSteps)
    } else {
        None
    }
}

impl RowGroupMeta {
    /// Why the group's statistics cannot be used, if they cannot.
    pub open spec fn error(self, group: usize) -> Option<OpenError> {
        match self.statistics {
            StateStatistics::Missing => Some(OpenError::MissingStatistics(group)),
            StateStatistics::Int64 { min, max } => if min is None {
                Some(OpenError::MissingMin)
            } else if max is None {
                Some(OpenError::MissingMax)
            } else {
                None
            },
            StateStatistics::Other(statistics) => Some(
                OpenError::UnexpectedStatistics(statistics),
            ),
        }
    }

    /// What is kept of the group's statistics.
    pub open spec fn stats(self, group: usize) -> RowGroupStats {
        RowGroupStats {
            idx: group,
            min: self.statistics->min.unwrap(),
            max: self.statistics->max.unwrap(),
            num_rows: self.num_rows as u64,
        }
    }
}

/// The first error among the groups from one on, if there is any.
pub open spec fn groups_error(groups: Seq<RowGroupMeta>, from: int) -> Option<OpenError>
    decreases groups.len() - from,
{
    if from >= groups.len() {
        None
    } else {
        match groups[from].error(from as usize) {
            Some(error) => Some(error),
            None => groups_error(groups, from + 1),
        }
    }
}

/// The number of rows in the first `count` groups.
pub open spec fn rows_in(groups: Seq<RowGroupStats>, count: int) -> nat
    decreases count,
{
    if count <= 0 {
        0
    } else {
        rows_in(groups, count - 1) + groups[count - 1].num_rows as nat
    }
}

/// The number of rows in the first `count` groups, by the metadata.
pub open spec fn meta_rows_in(groups: Seq<RowGroupMeta>, count: int) -> nat
    decreases count,
{
    if count <= 0 {
        0
    } else {
        meta_rows_in(groups, count - 1) + (groups[count - 1].num_rows as u64) as nat
    }
}

/// Why a database cannot be opened, if it cannot.
pub open spec fn open_error(pairs: Seq<KeyValue>, groups: Seq<RowGroupMeta>) -> Option<OpenError> {
    match meta_error(pairs) {
        Some(error) => Some(error),
        None => groups_error(groups, 0),
    }
}

/// Reads a number from the metadata.
fn parse_meta(kv: Option<&Vec<KeyValue>>, key: &str) -> (number: Option<usize>)
    ensures
        number is Some <==> meta(pairs_of(kv), key@) is Some,
        number matches Some(n) ==> meta(pairs_of(kv), key@) == Some(n as nat),
{
    let list = match kv {
        Some(list) => list,
        None => {
            return None;
        },
    };
    let wanted: String = key.to_owned();
    let mut i: usize = 0;
    assert(list@.skip(0) =~= list@);
    while i < list.len()
        invariant
            i <= list@.len(),
            list@ == pairs_of(kv),
            wanted@ == key@,
            meta(list@, key@) == meta(list@.skip(i as int), key@),
        decreases list@.len() - i,
    {
        let ghost rest = list@.skip(i as int);
        assert(rest.drop_first() =~= list@.skip(i + 1));
        assert(rest[0] == list@[i as int]);
        if list[i].key == wanted {
            return match &list[i].value {
                Some(value) => text::parse_decimal(value.as_str()),
                None => None,
            };
        }
        i = i + 1;
    }
    assert(list@.skip(i as int) =~= Seq::<KeyValue>::empty());
    None
}

/// What a database says of itself without its rows.
pub struct DbIndex {
    pub groups: Seq<RowGroupStats>,
    pub layout: Layout,
    pub num_states: usize,
}

impl DbIndex {
    /// Whether a file is the one that the index describes: its groups have the
    /// stated numbers of rows and the stated least and greatest keys, none is
    /// empty, and its rows are in ascending order.
    pub open spec fn describes(self, file: Seq<Seq<(i64, i8)>>) -> bool {
        &&& file.len() == self.groups.len()
        &&& rows::ascending(rows::all_rows(file))
        &&& forall|g: int| 0 <= g < file.len() ==> {
            let group = #[trigger] file[g];
            &&& group.len() > 0
            &&& group.len() == self.groups[g].num_rows
            &&& group[0].0 == self.groups[g].min
            &&& group.last().0 == self.groups[g].max
        }
    }
}

/// What a database says of itself when it has been opened.
pub open spec fn opened(pairs: Seq<KeyValue>, groups: Seq<RowGroupMeta>) -> DbIndex {
    DbIndex {
        groups: Seq::new(groups.len(), |i: int| groups[i].stats(i as usize)),
        layout: meta_layout(pairs),
        num_states: match meta(pairs, "num_states"@) {
            Some(n) => n as usize,
            None => meta_rows_in(groups, groups.len() as int) as usize,
        },
    }
}

/// A policy database, without its rows.
pub struct PolicyDb {
    row_groups: Vec<RowGroupStats>,
    /// `cum_rows[i]` is the number of rows in the groups before group `i`.
    cum_rows: Vec<u64>,
    mechanics: QGameMechanics,
    board_size: usize,
    max_walls: usize,
    max_steps: usize,
    num_states: usize,
}

impl View for PolicyDb {
    type V = DbIndex;

    closed spec fn view(&self) -> DbIndex {
        DbIndex {
            groups: self.row_groups@,
            layout: self.mechanics@,
            num_states: self.num_states,
        }
    }
}

impl PolicyDb {
    #[verifier::type_invariant]
    pub closed spec fn inv(self) -> bool {
        &&& self.mechanics@ == (Layout {
            board_size: self.board_size as nat,
            max_walls: self.max_walls as nat,
            max_steps: self.max_steps as nat,
        })
        &&& self.mechanics@.fits_word()
        &&& self.cum_rows@.len() == self.row_groups@.len() + 1
        &&& forall|i: int| 0 <= i < self.cum_rows@.len() ==> #[trigger] self.cum_rows@[i]
            == rows_in(self.row_groups@, i)
        &&& forall|i: int| 0 <= i < self.row_groups@.len() ==> (
        #[trigger] self.row_groups@[i]).idx == i
    }

    /// What a caller may rely on of every database.
    pub proof fn lemma_inv(self)
        requires
            self.inv(),
        ensures
            self@.layout.fits_word(),
            forall|i: int| 0 <= i < self@.groups.len() ==> (#[trigger] self@.groups[i]).idx == i,
    {
    }

    /// The parameters that the metadata give: board size, walls, steps.
    pub fn parameters(kv: Option<&Vec<KeyValue>>) -> (result: Result<
        (usize, usize, usize),
        OpenError,
    >)
        ensures
            match meta_error(pairs_of(kv)) {
                Some(error) => result == Err::<(usize, usize, usize), OpenError>(error),
                None => result matches Ok(p) && (Layout {
                    board_size: p.0 as nat,
                    max_walls: p.1 as nat,
                    max_steps: p.2 as nat,
                }) == meta_layout(pairs_of(kv)),
            },
    {
        let board_size: usize = match parse_meta(kv, "board_size") {
            Some(n) => n,
            None => {
                return Err(OpenError::MissingBoardSize);
            },
        };
        let max_walls: usize = match parse_meta(kv, "max_walls") {
            Some(n) => n,
            None => {
                return Err(OpenError::MissingMaxWalls);
            },
        };
        let max_steps: usize = match parse_meta(kv, "max_steps") {
            Some(n) => n,
            None => {
                return Err(OpenError::MissingMaxSteps);
            },
        };
        Ok((board_size, max_walls, max_steps))
    }

    /// Opens the database that a footer describes.
    ///
    /// The number of states is that of the metadata; where they give none, it is
    /// the number of rows.
    pub fn open(kv: Option<&Vec<KeyValue>>, groups: &Vec<RowGroupMeta>) -> (result: Result<
        Self,
        OpenError,
    >)
        requires
            meta_error(pairs_of(kv)) is None ==> meta_layout(pairs_of(kv)).fits_word(),
            forall|count: int|
                0 <= count <= groups@.len() && (forall|i: int|
                    0 <= i < count ==> (#[trigger] groups@[i]).error(i as usize) is None)
                    ==> #[trigger] meta_rows_in(groups@, count) <= u64::MAX,
            groups@.len() < usize::MAX,
        ensures
            match open_error(pairs_of(kv), groups@) {
                Some(error) => result == Err::<Self, OpenError>(error),
                None => result matches Ok(db) && db@ == opened(pairs_of(kv), groups@),
            },
    {
        let (board_size, max_walls, max_steps) = match Self::parameters(kv) {
            Ok(parameters) => parameters,
            Err(error) => {
                return Err(error);
            },
        };
        let num_states_meta: Option<usize> = parse_meta(kv, "num_states");
        let mechanics = QGameMechanics::new(board_size, max_walls, max_steps);

        let mut row_groups: Vec<RowGroupStats> = Vec::new();
        let mut cum_rows: Vec<u64> = Vec::new();
        cum_rows.push(0u64);
        let mut total: u64 = 0;
        let mut i: usize = 0;
        while i < groups.len()
            invariant
                i <= groups@.len(),
                groups@.len() < usize::MAX,
                forall|count: int|
                    0 <= count <= groups@.len() && (forall|i: int|
                        0 <= i < count ==> (#[trigger] groups@[i]).error(i as usize) is None)
                        ==> #[trigger] meta_rows_in(groups@, count) <= u64::MAX,
                forall|k: int| 0 <= k < i ==> (#[trigger] groups@[k]).error(k as usize) is None,
                groups_error(groups@, 0) == groups_error(groups@, i as int),
                row_groups@ == Seq::new(i as nat, |k: int| groups@[k].stats(k as usize)),
                cum_rows@.len() == i + 1,
                forall|k: int| 0 <= k < cum_rows@.len() ==> #[trigger] cum_rows@[k] == rows_in(
                    row_groups@,
                    k,
                ),
                forall|k: int| 0 <= k <= i ==> rows_in(row_groups@, k) == #[trigger] meta_rows_in(
                    groups@,
                    k,
                ),
                total == meta_rows_in(groups@, i as int),
                meta_error(pairs_of(kv)) is None,
            decreases groups@.len() - i,
        {
            let num_rows: u64 = groups[i].num_rows as u64;
            let (min, max) = match &groups[i].statistics {
                StateStatistics::Missing => {
                    return Err(OpenError::MissingStatistics(i));
                },
                StateStatistics::Int64 { min, max } => {
                    let least: i64 = match min {
                        Some(value) => *value,
                        None => {
                            return Err(OpenError::MissingMin);
                        },
                    };
                    let greatest: i64 = match max {
                        Some(value) => *value,
                        None => {
                            return Err(OpenError::MissingMax);
                        },
                    };
                    (least, greatest)
                },
                StateStatistics::Other(statistics) => {
                    return Err(OpenError::UnexpectedStatistics(statistics.clone()));
                },
            };
            let ghost before = row_groups@;
            row_groups.push(RowGroupStats { idx: i, min, max, num_rows });
            proof {
                assert(row_groups@ =~= Seq::new(
                    (i + 1) as nat,
                    |k: int| groups@[k].stats(k as usize),
                ));
                assert(meta_rows_in(groups@, i + 1) <= u64::MAX);
                lemma_rows_in_prefix(before, row_groups@, i as int);
            }
            total = total + num_rows;
            cum_rows.push(total);
            i = i + 1;
        }
        let num_states: usize = match num_states_meta {
            Some(n) => n,
            None => total as usize,
        };
        Ok(
            PolicyDb {
                row_groups,
                cum_rows,
                mechanics,
                board_size,
                max_walls,
                max_steps,
                num_states,
            },
        )
    }

    /// The game mechanics.
    pub fn mechanics(&self) -> (mechanics: &QGameMechanics)
        ensures
            mechanics@ == self@.layout,
    {
        &self.mechanics
    }

    /// The metadata: board size, walls, steps, number of states.
    pub fn read_metadata(&self) -> (result: Result<
        (usize, usize, usize, Option<usize>),
        OpenError,
    >)
        ensures
            result matches Ok(m) && {
                &&& m.0 == self@.layout.board_size
                &&& m.1 == self@.layout.max_walls
                &&& m.2 == self@.layout.max_steps
                &&& m.3 == Some(self@.num_states)
            },
    {
        proof {
            use_type_invariant(self);
        }
        Ok((self.board_size, self.max_walls, self.max_steps, Some(self.num_states)))
    }

    /// The total number of states.
    pub fn count_states(&self) -> (result: Result<usize, OpenError>)
        ensures
            result == Ok::<usize, OpenError>(self@.num_states),
    {
        Ok(self.num_states)
    }

    /// The number of row groups.
    pub fn num_row_groups(&self) -> (count: usize)
        ensures
            count == self@.groups.len(),
    {
        self.row_groups.len()
    }

    /// The statistics of a row group.
    pub fn row_group(&self, group: usize) -> (stats: RowGroupStats)
        requires
            group < self@.groups.len(),
        ensures
            stats == self@.groups[group as int],
    {
        self.row_groups[group]
    }

    /// The number of rows in the groups before one, or in all of them.
    pub fn rows_before(&self, group: usize) -> (count: u64)
        requires
            group <= self@.groups.len(),
        ensures
            count == rows_in(self@.groups, group as int),
    {
        proof {
            use_type_invariant(self);
        }
        self.cum_rows[group]
    }

    /// The group that holds the row with the given number, counted from 0.
    pub fn group_of_row(&self, row: u64) -> (group: usize)
        requires
            row < rows_in(self@.groups, self@.groups.len() as int),
        ensures
            group < self@.groups.len(),
            rows_in(self@.groups, group as int) <= row < rows_in(self@.groups, group + 1),
    {
        proof {
            use_type_invariant(self);
        }
        let mut low: usize = 0;
        let mut high: usize = self.row_groups.len();
        while high - low > 1
            invariant
                low < high <= self.row_groups@.len(),
                self.cum_rows@.len() == self.row_groups@.len() + 1,
                self.cum_rows@[low as int] <= row < self.cum_rows@[high as int],
            decreases high - low,
        {
            let middle: usize = low + (high - low) / 2;
            if self.cum_rows[middle] <= row {
                low = middle;
            } else {
                high = middle;
            }
        }
        low
    }
}

/// Further groups do not change the number of rows before them.
proof fn lemma_rows_in_prefix(shorter: Seq<RowGroupStats>, longer: Seq<RowGroupStats>, count: int)
    requires
        0 <= count <= shorter.len() <= longer.len(),
        forall|i: int| 0 <= i < shorter.len() ==> shorter[i] == #[trigger] longer[i],
    ensures
        forall|k: int| 0 <= k <= count ==> #[trigger] rows_in(shorter, k) == rows_in(longer, k),
    decreases count,
{
    if count > 0 {
        lemma_rows_in_prefix(shorter, longer, count - 1);
        assert(shorter[count - 1] == longer[count - 1]);
        assert(rows_in(shorter, count - 1) == rows_in(longer, count - 1));
        assert forall|k: int| 0 <= k <= count implies #[trigger] rows_in(shorter, k) == rows_in(
            longer,
            k,
        ) by {
            if k < count {
                assert(rows_in(shorter, k) == rows_in(longer, k));
            }
        }
    }
}

} // verus!
