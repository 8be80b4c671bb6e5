//! Planning requests as they arrive, and their conversion to a `PlanConfig`.
use crate::configs::{Gaction, Goal, PlanConfig};
use vstd::prelude::*;
use vstd::string::StringExecFns;

verus! {

pub struct ParameterValue {
    pub parameter: String,
    pub value: bool,
}

pub struct BodyAction {
    pub name: String,
    pub cost: usize,
    pub pre_state: Vec<ParameterValue>,
    pub post_state: Vec<ParameterValue>,
}

pub struct BodyGoal {
    pub name: String,
    pub state: Vec<ParameterValue>,
}

pub struct PlanBody {
    pub actions: Vec<BodyAction>,
    pub goals: Vec<BodyGoal>,
    pub world_state: Vec<ParameterValue>,
}

/// The answer to a planning request.
pub struct ListActionNames {
    pub action_names: Vec<String>,
}

/// The entries of a state given as parameter/value pairs.
pub open spec fn entries_of(p: Seq<ParameterValue>) -> Seq<(String, bool)> {
    p.map_values(|x: ParameterValue| (x.parameter, x.value))
}

pub fn body_state_to_hash_map(p: &Vec<ParameterValue>) -> (r: Vec<(String, bool)>)
    ensures
        r@ == entries_of(p@),
{
    let mut h: Vec<(String, bool)> = Vec::new();
    let mut i: usize = 0;
    while i < p.len()
        invariant
            i <= p@.len(),
            h@ == entries_of(p@.subrange(0, i as int)),
        decreases p@.len() - i,
    {
        h.push((p[i].parameter.clone(), p[i].value));
        i = i + 1;
        assert(h@ =~= entries_of(p@.subrange(0, i as int)));
    }
    assert(p@.subrange(0, p@.len() as int) =~= p@);
    h
}

/// The action that a request describes.
pub open spec fn action_matches(a: (String, Gaction), b: BodyAction) -> bool {
    &&& a.0 == b.name
    &&& a.1.cost == b.cost
    &&& a.1.pre_state@ == entries_of(b.pre_state@)
    &&& a.1.post_state@ == entries_of(b.post_state@)
}

pub open spec fn goal_matches(g: Goal, b: BodyGoal) -> bool {
    g.name == b.name && g.state@ == entries_of(b.state@)
}

/// Converts a planning request; actions, goals and world state must each be
/// non-empty.
pub fn to_plan_config(plan_config: PlanBody) -> (r: Result<PlanConfig, String>)
    ensures
        r is Err <==> (plan_config.actions@.len() == 0 || plan_config.goals@.len() == 0
            || plan_config.world_state@.len() == 0),
        r is Ok ==> {
            let c = r->Ok_0;
            &&& c.world_state@ == entries_of(plan_config.world_state@)
            &&& c.actions@.len() == plan_config.actions@.len()
            &&& forall|i: int|
                0 <= i < c.actions@.len() ==> action_matches(
                    #[trigger] c.actions@[i],
                    plan_config.actions@[i],
                )
            &&& c.goals@.len() == plan_config.goals@.len()
            &&& forall|i: int|
                0 <= i < c.goals@.len() ==> goal_matches(#[trigger] c.goals@[i], plan_config.goals@[i])
        },
{
    let actions = &plan_config.actions;
    let goals = &plan_config.goals;
    let mut plan_actions: Vec<(String, Gaction)> = Vec::new();
    let mut i: usize = 0;
    while i < actions.len()
        invariant
            i <= actions@.len(),
            plan_actions@.len() == i,
            forall|j: int| 0 <= j < i ==> action_matches(#[trigger] plan_actions@[j], actions@[j]),
        decreases actions@.len() - i,
    {
        let a = &actions[i];
        let plan_action = Gaction {
            cost: a.cost,
            pre_state: body_state_to_hash_map(&a.pre_state),
            post_state: body_state_to_hash_map(&a.post_state),
        };
        plan_actions.push((a.name.clone(), plan_action));
        i = i + 1;
    }
    let mut plan_goal_list: Vec<Goal> = Vec::new();
    let mut k: usize = 0;
    while k < goals.len()
        invariant
            k <= goals@.len(),
            plan_goal_list@.len() == k,
            forall|j: int| 0 <= j < k ==> goal_matches(#[trigger] plan_goal_list@[j], goals@[j]),
        decreases goals@.len() - k,
    {
        let g = &goals[k];
        plan_goal_list.push(Goal { name: g.name.clone(), state: body_state_to_hash_map(&g.state) });
        k = k + 1;
    }
    let plan_world_state = body_state_to_hash_map(&plan_config.world_state);
    if plan_world_state.len() == 0 || plan_goal_list.len() == 0 || plan_actions.len() == 0 {
        Err(String::from_str("Actions/Goals/World State must not be empty"))
    } else {
        Ok(PlanConfig { actions: plan_actions, goals: plan_goal_list, world_state: plan_world_state })
    }
}

} // verus!
