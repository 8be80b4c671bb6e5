//! World states, actions and goals of the action planner.
//!
//! A state is a list of `(key, value)` entries read as a map in which a later
//! entry for a key replaces an earlier one.
use vstd::prelude::*;

verus! {

pub open spec fn state_of(v: Seq<(String, bool)>) -> Map<Seq<char>, bool>
    decreases v.len(),
{
    if v.len() == 0 {
        Map::empty()
    } else {
        state_of(v.drop_last()).insert(v.last().0@, v.last().1)
    }
}

/// Every key of `small` is in `big` with the same value.
pub open spec fn includes(big: Map<Seq<char>, bool>, small: Map<Seq<char>, bool>) -> bool {
    forall|k: Seq<char>|
        #[trigger] small.dom().contains(k) ==> big.dom().contains(k) && big[k] == small[k]
}

pub proof fn lemma_state_dom(v: Seq<(String, bool)>, k: Seq<char>)
    ensures
        state_of(v).dom().contains(k) <==> exists|x: int| 0 <= x < v.len() && (#[trigger] v[x]).0@ == k,
    decreases v.len(),
{
    if v.len() > 0 {
        lemma_state_dom(v.drop_last(), k);
        if state_of(v.drop_last()).dom().contains(k) {
            let x = choose|x: int| 0 <= x < v.drop_last().len() && (#[trigger] v.drop_last()[x]).0@ == k;
            assert(v[x] == v.drop_last()[x]);
        }
        if exists|x: int| 0 <= x < v.len() && (#[trigger] v[x]).0@ == k {
            let x = choose|x: int| 0 <= x < v.len() && (#[trigger] v[x]).0@ == k;
            if x < v.len() - 1 {
                assert(v.drop_last()[x] == v[x]);
            }
        }
    }
}

/// The value of `key` in the state, if it has one.
pub fn state_get(v: &Vec<(String, bool)>, key: &String) -> (r: Option<bool>)
    ensures
        r == if state_of(v@).dom().contains(key@) {
            Some(state_of(v@)[key@])
        } else {
            None::<bool>
        },
{
    let mut j: usize = v.len();
    assert(v@.subrange(0, v@.len() as int) =~= v@);
    while j > 0
        invariant
            j <= v@.len(),
            state_of(v@).dom().contains(key@) == state_of(v@.subrange(0, j as int)).dom().contains(key@),
            state_of(v@).dom().contains(key@) ==> state_of(v@)[key@] == state_of(
                v@.subrange(0, j as int),
            )[key@],
        decreases j,
    {
        let ghost pre = v@.subrange(0, j as int);
        assert(pre.drop_last() =~= v@.subrange(0, j - 1));
        if v[j - 1].0 == *key {
            return Some(v[j - 1].1);
        }
        j = j - 1;
    }
    None
}

/// A copy of a state list, entry for entry.
pub fn copy_state(v: &Vec<(String, bool)>) -> (r: Vec<(String, bool)>)
    ensures
        r@ == v@,
{
    let mut r: Vec<(String, bool)> = Vec::new();
    let mut i: usize = 0;
    while i < v.len()
        invariant
            i <= v@.len(),
            r@ == v@.subrange(0, i as int),
        decreases v@.len() - i,
    {
        r.push((v[i].0.clone(), v[i].1));
        i = i + 1;
        assert(r@ =~= v@.subrange(0, i as int));
    }
    assert(v@.subrange(0, v@.len() as int) =~= v@);
    r
}

/// Whether every key of `pre_state` has the same value in `prev_state`.
pub fn hasmap_contains(prev_state: &Vec<(String, bool)>, pre_state: &Vec<(String, bool)>) -> (r: bool)
    ensures
        r == includes(state_of(prev_state@), state_of(pre_state@)),
{
    let ghost big = state_of(prev_state@);
    let ghost small = state_of(pre_state@);
    let mut j: usize = 0;
    while j < pre_state.len()
        invariant
            j <= pre_state@.len(),
            big == state_of(prev_state@),
            small == state_of(pre_state@),
            forall|x: int|
                0 <= x < j ==> big.dom().contains(#[trigger] pre_state@[x].0@) && big[pre_state@[x].0@]
                    == small[pre_state@[x].0@],
        decreases pre_state@.len() - j,
    {
        let key = &pre_state[j].0;
        proof {
            lemma_state_dom(pre_state@, key@);
        }
        let want = state_get(pre_state, key);
        let have = state_get(prev_state, key);
        match (want, have) {
            (Some(w), Some(h)) => {
                if w != h {
                    return false;
                }
            },
            _ => {
                return false;
            },
        }
        j = j + 1;
    }
    assert forall|k: Seq<char>| #[trigger] small.dom().contains(k) implies big.dom().contains(k)
        && big[k] == small[k] by {
        lemma_state_dom(pre_state@, k);
        let x = choose|x: int| 0 <= x < pre_state@.len() && (#[trigger] pre_state@[x]).0@ == k;
    }
    true
}

/// A node of the search: the state after an action, the node it came from
/// and the cost so far.
pub struct Gnode {
    pub id: String,
    pub from_node: Option<usize>,
    pub state: Vec<(String, bool)>,
    pub running_cost: usize,
}

pub struct Gaction {
    pub cost: usize,
    pub pre_state: Vec<(String, bool)>,
    pub post_state: Vec<(String, bool)>,
}

proof fn lemma_state_append(a: Seq<(String, bool)>, b: Seq<(String, bool)>)
    ensures
        state_of(a + b) == state_of(a).union_prefer_right(state_of(b)),
    decreases b.len(),
{
    if b.len() == 0 {
        assert(a + b =~= a);
        assert(state_of(a).union_prefer_right(state_of(b)) =~= state_of(a));
    } else {
        lemma_state_append(a, b.drop_last());
        assert((a + b).drop_last() =~= a + b.drop_last());
        assert(state_of(a + b) =~= state_of(a).union_prefer_right(state_of(b)));
    }
}

impl Gaction {
    pub fn are_preconditions_met(&self, prev_state: &Vec<(String, bool)>) -> (r: bool)
        ensures
            r == includes(state_of(prev_state@), state_of(self.pre_state@)),
    {
        hasmap_contains(prev_state, &self.pre_state)
    }

    /// Sets every key of the post-conditions to its value.
    pub fn update_with_post_conditions(&self, prev_state: &mut Vec<(String, bool)>)
        ensures
            state_of(final(prev_state)@) == state_of(old(prev_state)@).union_prefer_right(
                state_of(self.post_state@),
            ),
    {
        let mut i: usize = 0;
        while i < self.post_state.len()
            invariant
                i <= self.post_state@.len(),
                prev_state@ == old(prev_state)@ + self.post_state@.subrange(0, i as int),
            decreases self.post_state@.len() - i,
        {
            prev_state.push((self.post_state[i].0.clone(), self.post_state[i].1));
            i = i + 1;
            assert(prev_state@ =~= old(prev_state)@ + self.post_state@.subrange(0, i as int));
        }
        proof {
            assert(self.post_state@.subrange(0, self.post_state@.len() as int) =~= self.post_state@);
            lemma_state_append(old(prev_state)@, self.post_state@);
        }
    }
}

pub struct Goal {
    pub name: String,
    pub state: Vec<(String, bool)>,
}

/// A planning problem: named actions (a later action of the same name
/// replaces an earlier one), goals and the initial world state.
pub struct PlanConfig {
    pub actions: Vec<(String, Gaction)>,
    pub goals: Vec<Goal>,
    pub world_state: Vec<(String, bool)>,
}

} // verus!
