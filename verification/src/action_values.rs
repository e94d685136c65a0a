//! The values of all actions in a state, from a policy database.

use std::collections::HashMap;
use vstd::prelude::*;
use crate::layout::Layout;
use crate::minimax;
use crate::policy_db::PolicyDb;

verus! {

broadcast use vstd::std_specs::hash::group_hash_axioms;

/// The actions of a state and what they lead to.
pub struct Plan {
    /// The player who acts.
    pub player: nat,
    /// What the player can do.
    pub actions: Seq<(u8, u8, u8)>,
    /// The states after the actions.
    pub children: Seq<u64>,
    /// The values of those that are the end of a game.
    pub outcomes: Seq<Option<i8>>,
}

impl Layout {
    /// The actions of a state and what they lead to.
    pub open spec fn plan(self, data: u64) -> Plan {
        let actions = self.actions_of(data);
        Plan {
            player: self.word_board(data).player,
            actions,
            children: actions.map_values(|a: (u8, u8, u8)| self.child(data, a)),
            outcomes: actions.map_values(|a: (u8, u8, u8)| self.outcome(self.child(data, a))),
        }
    }
}

/// The value that the last pair with a state gives it.
pub open spec fn pair_value(pairs: Seq<(u64, i32)>, state: u64) -> Option<i32>
    decreases pairs.len(),
{
    if pairs.len() == 0 {
        None
    } else if pairs.last().0 == state {
        Some(pairs.last().1)
    } else {
        pair_value(pairs.drop_last(), state)
    }
}

/// The first `count` states without an outcome.
pub open spec fn without_outcome(
    states: Seq<u64>,
    outcomes: Seq<Option<i8>>,
    count: int,
) -> Seq<u64>
    decreases count,
{
    if count <= 0 {
        Seq::empty()
    } else if outcomes[count - 1] is None {
        without_outcome(states, outcomes, count - 1).push(states[count - 1])
    } else {
        without_outcome(states, outcomes, count - 1)
    }
}

impl Plan {
    /// The value for player 0 that an action leads to: that of the finished
    /// game, or what the pairs say.
    pub open spec fn value_for_first(self, pairs: Seq<(u64, i32)>, i: int) -> Option<i32> {
        match self.outcomes[i] {
            Some(value) => Some(value as i32),
            None => pair_value(pairs, self.children[i]),
        }
    }

    /// The value that an action leads to, for the player who acts.
    pub open spec fn value_for_actor(self, pairs: Seq<(u64, i32)>, i: int) -> int {
        let value = self.value_for_first(pairs, i).unwrap();
        if self.player == 0 {
            value as int
        } else {
            -value
        }
    }

    /// Whether every action has a value.
    pub open spec fn all_valued(self, pairs: Seq<(u64, i32)>) -> bool {
        forall|i: int| 0 <= i < self.actions.len() ==> (#[trigger] self.value_for_first(
            pairs,
            i,
        )) is Some
    }

    /// Whether no action has a value.
    pub open spec fn none_valued(self, pairs: Seq<(u64, i32)>) -> bool {
        forall|i: int| 0 <= i < self.actions.len() ==> (#[trigger] self.value_for_first(
            pairs,
            i,
        )) is None
    }
}

/// How many of a state's actions have a value.
#[derive(Clone, Copy, Debug, PartialEq, Eq, Structural)]
pub enum Coverage {
    All,
    Partial,
    Nothing,
}

/// The actions of a state, on the way to their values.
pub struct ActionPlan {
    player: usize,
    actions: Vec<(u8, u8, u8)>,
    children: Vec<u64>,
    outcomes: Vec<Option<i8>>,
}

impl View for ActionPlan {
    type V = Plan;

    closed spec fn view(&self) -> Plan {
        Plan {
            player: self.player as nat,
            actions: self.actions@,
            children: self.children@,
            outcomes: self.outcomes@,
        }
    }
}

/// Pairs as a map; of pairs with the same state the last one counts.
fn map_of(pairs: &Vec<(u64, i32)>) -> (map: HashMap<u64, i32>)
    ensures
        forall|state: u64| #[trigger]
            map@.contains_key(state) <==> pair_value(pairs@, state) is Some,
        forall|state: u64| #[trigger]
            map@.contains_key(state) ==> pair_value(pairs@, state) == Some(map@[state]),
{
    let mut map: HashMap<u64, i32> = HashMap::new();
    let mut i: usize = 0;
    while i < pairs.len()
        invariant
            i <= pairs@.len(),
            forall|state: u64| #[trigger]
                map@.contains_key(state) <==> pair_value(pairs@.take(i as int), state) is Some,
            forall|state: u64| #[trigger]
                map@.contains_key(state) ==> pair_value(pairs@.take(i as int), state) == Some(
                    map@[state],
                ),
        decreases pairs@.len() - i,
    {
        let (state, value) = pairs[i];
        map.insert(state, value);
        assert(pairs@.take(i + 1).drop_last() =~= pairs@.take(i as int));
        i = i + 1;
    }
    assert(pairs@.take(i as int) =~= pairs@);
    map
}

impl PolicyDb {
    /// Starts a lookup of the values of all actions in a state. Returns `None`
    /// where there is no action.
    ///
    /// What the actions lead to is worked out, and the values of finished games
    /// with it. The values of the other states are to be looked up.
    pub fn lookup_action_values(&self, data: u64) -> (plan: Option<ActionPlan>)
        requires
            self@.layout.valid(data),
            self@.layout.actions_of(data).len() > 0 ==> self@.layout.word_board(data).steps
                < self@.layout.max_steps,
        ensures
            plan is None <==> self@.layout.actions_of(data).len() == 0,
            plan matches Some(p) ==> p@ == self@.layout.plan(data),
    {
        let mechanics = self.mechanics();
        let ghost layout = mechanics@;
        let ghost acts = layout.actions_of(data);
        let player: usize = mechanics.repr().get_current_player(data);
        let mut data_mut: u64 = data;
        let actions = minimax::get_all_actions(mechanics, &mut data_mut);
        if actions.len() == 0 {
            return None;
        }
        proof {
            use_type_invariant(mechanics);
            mechanics.lemma_inv();
            layout.lemma_widths();
            layout.lemma_word_shape(data);
            layout.word_board(data).lemma_actions_well_formed();
        }
        let mut children: Vec<u64> = Vec::new();
        let mut outcomes: Vec<Option<i8>> = Vec::new();
        let mut i: usize = 0;
        while i < actions.len()
            invariant
                i <= actions@.len(),
                layout == mechanics@,
                layout.valid(data),
                layout.word_board(data).steps < layout.max_steps,
                actions@ == acts,
                acts == layout.actions_of(data),
                forall|k: int| 0 <= k < acts.len() ==> layout.word_board(data).well_formed_action(
                    #[trigger] layout.word_board(data).actions()[k],
                ),
                children@.len() == i,
                outcomes@.len() == i,
                forall|k: int| 0 <= k < i ==> #[trigger] children@[k] == layout.child(
                    data,
                    acts[k],
                ),
                forall|k: int| 0 <= k < i ==> #[trigger] outcomes@[k] == layout.outcome(
                    layout.child(data, acts[k]),
                ),
            decreases actions@.len() - i,
        {
            assert(acts[i as int] == layout.word_board(data).actions()[i as int]);
            let child: u64 = minimax::apply_action(mechanics, data, actions[i]);
            outcomes.push(minimax::outcome(mechanics, child));
            children.push(child);
            i = i + 1;
        }
        let plan = ActionPlan { player, actions, children, outcomes };
        proof {
            let expected = layout.plan(data);
            assert(plan@.children =~= expected.children);
            assert(plan@.outcomes =~= expected.outcomes);
        }
        Some(plan)
    }
}

impl ActionPlan {
    #[verifier::type_invariant]
    pub closed spec fn inv(self) -> bool {
        &&& self.player < 2
        &&& self.children@.len() == self.actions@.len()
        &&& self.outcomes@.len() == self.actions@.len()
    }

    /// The states whose values have to be looked up: those that are not the end
    /// of a game, in the order of the actions.
    pub fn states_to_look_up(&self) -> (states: Vec<u64>)
        ensures
            states@ == without_outcome(
                self@.children,
                self@.outcomes,
                self@.actions.len() as int,
            ),
    {
        proof {
            use_type_invariant(self);
        }
        let mut states: Vec<u64> = Vec::new();
        let mut i: usize = 0;
        while i < self.actions.len()
            invariant
                i <= self.actions@.len(),
                self.inv(),
                states@ == without_outcome(self.children@, self.outcomes@, i as int),
            decreases self.actions@.len() - i,
        {
            if self.outcomes[i].is_none() {
                states.push(self.children[i]);
            }
            i = i + 1;
        }
        states
    }

    /// How many of the actions have a value, with the pairs that were found.
    pub fn coverage(&self, pairs: &Vec<(u64, i32)>) -> (coverage: Coverage)
        ensures
            coverage == Coverage::All <==> self@.all_valued(pairs@),
            coverage == Coverage::Nothing <==> self@.none_valued(pairs@) && !self@.all_valued(
                pairs@,
            ),
    {
        proof {
            use_type_invariant(self);
        }
        let map = map_of(pairs);
        let mut found: usize = 0;
        let mut i: usize = 0;
        while i < self.actions.len()
            invariant
                i <= self.actions@.len(),
                self.inv(),
                forall|state: u64| #[trigger]
                    map@.contains_key(state) <==> pair_value(pairs@, state) is Some,
                found <= i,
                found == i <==> forall|k: int| 0 <= k < i ==> (#[trigger] self@.value_for_first(
                    pairs@,
                    k,
                )) is Some,
                found == 0 <==> forall|k: int| 0 <= k < i ==> (#[trigger] self@.value_for_first(
                    pairs@,
                    k,
                )) is None,
            decreases self.actions@.len() - i,
        {
            let has_value: bool = self.outcomes[i].is_some() || map.contains_key(&self.children[i]);
            assert(has_value == (self@.value_for_first(pairs@, i as int) is Some));
            if has_value {
                found = found + 1;
            }
            i = i + 1;
        }
        if found == self.actions.len() {
            Coverage::All
        } else if found == 0 {
            Coverage::Nothing
        } else {
            Coverage::Partial
        }
    }

    /// The actions and their values for the player who acts, with the pairs
    /// that were found. Returns `None` where no value was found.
    pub fn values(self, pairs: &Vec<(u64, i32)>) -> (result: Option<
        (Vec<(u8, u8, u8)>, Vec<i32>),
    >)
        requires
            self@.all_valued(pairs@) || self@.none_valued(pairs@),
            forall|i: int| 0 <= i < pairs@.len() ==> (#[trigger] pairs@[i]).1 > i32::MIN,
        ensures
            self@.none_valued(pairs@) ==> result is None,
            !self@.none_valued(pairs@) ==> result is Some,
            result matches Some((actions, values)) ==> {
                &&& actions@ == self@.actions
                &&& values@.len() == actions@.len()
                &&& forall|i: int| 0 <= i < values@.len() ==> #[trigger] values@[i]
                    == self@.value_for_actor(pairs@, i)
            },
    {
        proof {
            use_type_invariant(&self);
        }
        let map = map_of(pairs);
        let mut values: Vec<i32> = Vec::new();
        let mut i: usize = 0;
        while i < self.actions.len()
            invariant
                i <= self.actions@.len(),
                self.inv(),
                self@.all_valued(pairs@) || self@.none_valued(pairs@),
                i > 0 ==> self@.all_valued(pairs@),
                forall|i: int| 0 <= i < pairs@.len() ==> (#[trigger] pairs@[i]).1 > i32::MIN,
                forall|state: u64| #[trigger]
                    map@.contains_key(state) <==> pair_value(pairs@, state) is Some,
                forall|state: u64| #[trigger]
                    map@.contains_key(state) ==> pair_value(pairs@, state) == Some(map@[state]),
                values@.len() == i,
                forall|k: int| 0 <= k < i ==> #[trigger] values@[k] == self@.value_for_actor(
                    pairs@,
                    k,
                ),
            decreases self.actions@.len() - i,
        {
            proof {
                lemma_pair_value_listed(pairs@, self.children@[i as int]);
                assert(self@.value_for_first(pairs@, i as int) is Some
                    <==> self@.all_valued(pairs@));
            }
            let value: i32 = match self.outcomes[i] {
                Some(outcome) => outcome as i32,
                None => match map.get(&self.children[i]) {
                    Some(found) => *found,
                    None => {
                        return None;
                    },
                },
            };
            if self.player == 0 {
                values.push(value);
            } else {
                values.push(-value);
            }
            i = i + 1;
        }
        if values.len() == 0 {
            return None;
        }
        assert(self@.value_for_first(pairs@, 0) is Some);
        Some((self.actions, values))
    }
}

/// The value of a state stands in one of the pairs.
proof fn lemma_pair_value_listed(pairs: Seq<(u64, i32)>, state: u64)
    ensures
        pair_value(pairs, state) matches Some(v) ==> exists|i: int|
            0 <= i < pairs.len() && #[trigger] pairs[i] == (state, v),
    decreases pairs.len(),
{
    if pairs.len() > 0 {
        if pairs.last().0 == state {
            assert(pairs[pairs.len() - 1] == (state, pairs.last().1));
        } else {
            lemma_pair_value_listed(pairs.drop_last(), state);
            if let Some(v) = pair_value(pairs.drop_last(), state) {
                let i = choose|i: int|
                    0 <= i < pairs.drop_last().len() && #[trigger] pairs.drop_last()[i] == (state, v);
                assert(pairs[i] == (state, v));
            }
        }
    }
}

} // verus!
