//! A depth-first search for a cheap sequence of actions that reaches a goal.
use crate::configs::{
    copy_state, hasmap_contains, includes, state_of, Gaction, Gnode, Goal, PlanConfig,
};
use vstd::prelude::*;
use vstd::string::StringExecFns;

verus! {

/// Plans that cost more than this are not searched.
pub const COST_CAP: usize = 10000;

/// The action named `name`: the last entry of that name.
pub open spec fn action_named(acts: Seq<(String, Gaction)>, name: Seq<char>) -> Option<Gaction>
    decreases acts.len(),
{
    if acts.len() == 0 {
        None
    } else if acts.last().0@ == name {
        Some(acts.last().1)
    } else {
        action_named(acts.drop_last(), name)
    }
}

/// The state after taking the named actions in turn from `start`; `None` if
/// an action is unknown or its preconditions do not hold when it is taken.
pub open spec fn run_plan(
    acts: Seq<(String, Gaction)>,
    start: Map<Seq<char>, bool>,
    names: Seq<Seq<char>>,
) -> Option<Map<Seq<char>, bool>>
    decreases names.len(),
{
    if names.len() == 0 {
        Some(start)
    } else {
        match run_plan(acts, start, names.drop_last()) {
            None => None,
            Some(st) => match action_named(acts, names.last()) {
                None => None,
                Some(a) => if includes(st, state_of(a.pre_state@)) {
                    Some(st.union_prefer_right(state_of(a.post_state@)))
                } else {
                    None
                },
            },
        }
    }
}

pub open spec fn reaches_goal(goals: Seq<Goal>, st: Map<Seq<char>, bool>) -> bool {
    exists|g: int| 0 <= g < goals.len() && includes(st, state_of((#[trigger] goals[g]).state@))
}

/// A non-empty sequence of action names that can be taken in turn from the
/// world state and after which some goal holds.
pub open spec fn is_plan(cfg: PlanConfig, names: Seq<Seq<char>>) -> bool {
    &&& names.len() > 0
    &&& run_plan(cfg.actions@, state_of(cfg.world_state@), names) is Some
    &&& reaches_goal(cfg.goals@, run_plan(cfg.actions@, state_of(cfg.world_state@), names)->0)
}

pub open spec fn strings(v: Seq<String>) -> Seq<Seq<char>> {
    v.map_values(|s: String| s@)
}

/// Whether some goal holds in the state.
fn goal_reached(goals: &Vec<Goal>, st: &Vec<(String, bool)>) -> (r: bool)
    ensures
        r == reaches_goal(goals@, state_of(st@)),
{
    let mut g: usize = 0;
    while g < goals.len()
        invariant
            g <= goals@.len(),
            forall|x: int| 0 <= x < g ==> !includes(state_of(st@), state_of((#[trigger] goals@[x]).state@)),
        decreases goals@.len() - g,
    {
        if hasmap_contains(st, &goals[g].state) {
            return true;
        }
        g = g + 1;
    }
    false
}

/// Whether a later action has the same name as action `k`, so that action
/// `k` is never the one a name stands for.
pub open spec fn replaced(acts: Seq<(String, Gaction)>, k: int) -> bool {
    exists|j: int| k < j < acts.len() && (#[trigger] acts[j]).0@ == acts[k].0@
}

proof fn lemma_action_named(acts: Seq<(String, Gaction)>, k: int)
    requires
        0 <= k < acts.len(),
        !replaced(acts, k),
    ensures
        action_named(acts, acts[k].0@) == Some(acts[k].1),
    decreases acts.len(),
{
    if k < acts.len() - 1 {
        let last = acts.len() - 1;
        assert(acts[last].0@ != acts[k].0@);
        let d = acts.drop_last();
        assert forall|j: int| k < j < d.len() implies (#[trigger] d[j]).0@ != d[k].0@ by {
            assert(d[j] == acts[j]);
            if d[j].0@ == d[k].0@ {
                assert(acts[j].0@ == acts[k].0@);
            }
        }
        lemma_action_named(d, k);
    }
}

/// The action names on the way from the first node to node `i`.
pub open spec fn path_names(nodes: Seq<Gnode>, i: int) -> Seq<Seq<char>>
    decreases i,
{
    if 0 <= i < nodes.len() {
        match nodes[i].from_node {
            Some(p) => if p < i {
                path_names(nodes, p as int).push(nodes[i].id@)
            } else {
                Seq::empty()
            },
            None => Seq::empty(),
        }
    } else {
        Seq::empty()
    }
}

proof fn lemma_path_push(nodes: Seq<Gnode>, x: Gnode, i: int)
    requires
        0 <= i < nodes.len(),
    ensures
        path_names(nodes.push(x), i) == path_names(nodes, i),
    decreases i,
{
    assert(nodes.push(x)[i] == nodes[i]);
    match nodes[i].from_node {
        Some(p) => if p < i {
            lemma_path_push(nodes, x, p as int);
        },
        None => {},
    }
}

/// The total cost of the named actions.
pub open spec fn plan_cost(acts: Seq<(String, Gaction)>, names: Seq<Seq<char>>) -> int
    decreases names.len(),
{
    if names.len() == 0 {
        0
    } else {
        plan_cost(acts, names.drop_last()) + match action_named(acts, names.last()) {
            Some(a) => a.cost as int,
            None => 0,
        }
    }
}

/// The state after taking the actions with indices `ks` in turn from `st`;
/// `None` if an index is out of range or a precondition fails.
pub open spec fn run_indices(
    acts: Seq<(String, Gaction)>,
    st: Map<Seq<char>, bool>,
    ks: Seq<usize>,
) -> Option<Map<Seq<char>, bool>>
    decreases ks.len(),
{
    if ks.len() == 0 {
        Some(st)
    } else if ks[0] < acts.len() && includes(st, state_of(acts[ks[0] as int].1.pre_state@)) {
        run_indices(
            acts,
            st.union_prefer_right(state_of(acts[ks[0] as int].1.post_state@)),
            ks.drop_first(),
        )
    } else {
        None
    }
}

/// The total cost of the actions with indices `ks`.
pub open spec fn indices_cost(acts: Seq<(String, Gaction)>, ks: Seq<usize>) -> int
    decreases ks.len(),
{
    if ks.len() == 0 {
        0
    } else {
        (if ks[0] < acts.len() {
            acts[ks[0] as int].1.cost as int
        } else {
            0
        }) + indices_cost(acts, ks.drop_first())
    }
}

/// A non-empty sequence of distinct actions, all from `avail`, that can be
/// taken in turn from `st` and after which some goal holds.
pub open spec fn completes(cfg: PlanConfig, avail: Seq<usize>, st: Map<Seq<char>, bool>, ks: Seq<usize>) -> bool {
    &&& ks.len() > 0
    &&& ks.no_duplicates()
    &&& forall|j: int| 0 <= j < ks.len() ==> avail.contains(#[trigger] ks[j])
    &&& run_indices(cfg.actions@, st, ks) is Some
    &&& reaches_goal(cfg.goals@, run_indices(cfg.actions@, st, ks)->0)
}

/// A plan by action indices: distinct actions, none replaced by a later one
/// of the same name, taken in turn from the world state, reaching a goal.
pub open spec fn index_plan(cfg: PlanConfig, ks: Seq<usize>) -> bool {
    &&& ks.len() > 0
    &&& ks.no_duplicates()
    &&& forall|j: int|
        0 <= j < ks.len() ==> #[trigger] ks[j] < cfg.actions@.len() && !replaced(
            cfg.actions@,
            ks[j] as int,
        )
    &&& run_indices(cfg.actions@, state_of(cfg.world_state@), ks) is Some
    &&& reaches_goal(cfg.goals@, run_indices(cfg.actions@, state_of(cfg.world_state@), ks)->0)
}

proof fn lemma_indices_cost_nonneg(acts: Seq<(String, Gaction)>, ks: Seq<usize>)
    ensures
        indices_cost(acts, ks) >= 0,
    decreases ks.len(),
{
    if ks.len() > 0 {
        lemma_indices_cost_nonneg(acts, ks.drop_first());
    }
}

/// Searches the actions of a planning problem for a cheap plan.
pub struct Finder<'a> {
    config: &'a PlanConfig,
    nodes: Vec<Gnode>,
    cheapest: usize,
}

impl<'a> Finder<'a> {
    pub closed spec fn problem(&self) -> PlanConfig {
        *self.config
    }

    /// Every node was reached from an earlier one, and its state and cost are
    /// what its actions give from the world state.
    closed spec fn search_ok(&self) -> bool {
        &&& forall|i: int|
            0 <= i < self.nodes@.len() ==> match (#[trigger] self.nodes@[i]).from_node {
                Some(p) => p < i,
                None => true,
            }
        &&& forall|i: int|
            0 <= i < self.nodes@.len() ==> run_plan(
                self.config.actions@,
                state_of(self.config.world_state@),
                path_names(self.nodes@, i),
            ) == Some(state_of((#[trigger] self.nodes@[i]).state@))
        &&& forall|i: int|
            0 <= i < self.nodes@.len() ==> (#[trigger] self.nodes@[i]).running_cost as int
                == plan_cost(self.config.actions@, path_names(self.nodes@, i))
    }

    /// Node `i` was reached by at least one action and satisfies a goal.
    closed spec fn goal_node(&self, i: int) -> bool {
        &&& 0 <= i < self.nodes@.len()
        &&& self.nodes@[i].from_node is Some
        &&& reaches_goal(self.config.goals@, state_of(self.nodes@[i].state@))
    }

    pub fn new(config: &'a PlanConfig) -> (r: Finder<'a>)
        ensures
            r.problem() == *config,
    {
        Finder { config, nodes: Vec::new(), cheapest: COST_CAP }
    }

    /// The action names of a cheapest plan from the world state to a goal
    /// among plans of distinct actions costing less than `COST_CAP`, or
    /// nothing when there is no such plan.
    pub fn execute(&mut self) -> (r: Vec<String>)
        ensures
            final(self).problem() == old(self).problem(),
            r@.len() == 0 || is_plan(old(self).problem(), strings(r@)),
            r@.len() > 0 ==> plan_cost(old(self).problem().actions@, strings(r@)) < COST_CAP,
            forall|ks: Seq<usize>|
                #[trigger] index_plan(old(self).problem(), ks) && indices_cost(
                    old(self).problem().actions@,
                    ks,
                ) < COST_CAP ==> r@.len() > 0 && plan_cost(old(self).problem().actions@, strings(r@))
                    <= indices_cost(old(self).problem().actions@, ks),
    {
        let config: &'a PlanConfig = self.config;
        let ghost cfg = *config;
        let start_id = String::from_str("start");
        let g = Gnode {
            id: start_id,
            from_node: None,
            state: copy_state(&config.world_state),
            running_cost: 0,
        };
        self.nodes = Vec::new();
        self.nodes.push(g);
        self.cheapest = COST_CAP;
        proof {
            assert(path_names(self.nodes@, 0) =~= Seq::<Seq<char>>::empty());
        }
        let mut available: Vec<usize> = Vec::new();
        let mut k: usize = 0;
        while k < config.actions.len()
            invariant
                *config == self.problem(),
                cfg == *config,
                self.problem() == old(self).problem(),
                k <= config.actions@.len(),
                forall|x: int|
                    0 <= x < available@.len() ==> (#[trigger] available@[x]) < config.actions@.len()
                        && !replaced(config.actions@, available@[x] as int),
                forall|x: int|
                    0 <= x < k && !#[trigger] replaced(config.actions@, x) ==> available@.contains(
                        x as usize,
                    ),
            decreases config.actions@.len() - k,
        {
            if !Finder::replaced_later(config, k) {
                let ghost before = available@;
                available.push(k);
                assert forall|x: int|
                    0 <= x < k + 1 && !#[trigger] replaced(config.actions@, x) implies available@.contains(
                        x as usize,
                    ) by {
                    if x < k {
                        assert(before.contains(x as usize));
                        let q = choose|q: int| 0 <= q < before.len() && before[q] == x as usize;
                        assert(available@[q] == x as usize);
                    } else {
                        assert(available@[available@.len() - 1] == x as usize);
                    }
                }
            }
            k = k + 1;
        }
        let ghost world = state_of(config.world_state@);
        assert(self.nodes@[0].state@ == config.world_state@);
        let leaf = self.build_graph(0, &available);
        proof {
            assert forall|ks: Seq<usize>|
                #[trigger] index_plan(cfg, ks) implies completes(cfg, available@, world, ks) by {
                assert forall|j: int| 0 <= j < ks.len() implies available@.contains(#[trigger] ks[j]) by {
                    assert(ks[j] < cfg.actions@.len() && !replaced(cfg.actions@, ks[j] as int));
                    assert(available@.contains((ks[j] as int) as usize));
                }
            }
        }
        let l = match leaf {
            Some(l) => l,
            None => {
                return Vec::new();
            },
        };
        let mut idx: usize = l;
        let mut plan: Vec<String> = Vec::new();
        loop
            invariant
                self.search_ok(),
                *config == self.problem(),
                self.problem() == old(self).problem(),
                self.goal_node(l as int),
                idx < self.nodes@.len(),
                path_names(self.nodes@, l as int) == path_names(self.nodes@, idx as int) + strings(plan@),
                idx == l || plan@.len() > 0,
            ensures
                path_names(self.nodes@, l as int) == strings(plan@),
                plan@.len() > 0,
            decreases idx,
        {
            match self.nodes[idx].from_node {
                Some(p) => {
                    let ghost before = plan@;
                    plan.insert(0, self.nodes[idx].id.clone());
                    assert(strings(plan@) =~= seq![self.nodes@[idx as int].id@] + strings(before));
                    assert(path_names(self.nodes@, idx as int) == path_names(self.nodes@, p as int).push(
                        self.nodes@[idx as int].id@,
                    ));
                    assert(path_names(self.nodes@, p as int) + strings(plan@) =~= path_names(
                        self.nodes@,
                        idx as int,
                    ) + strings(before));
                    idx = p;
                },
                None => {
                    assert(path_names(self.nodes@, idx as int) =~= Seq::<Seq<char>>::empty());
                    assert(path_names(self.nodes@, l as int) =~= strings(plan@));
                    break;
                },
            }
        }
        proof {
            let i = l as int;
            assert(self.nodes@[i].from_node is Some);
            assert(run_plan(
                config.actions@,
                state_of(config.world_state@),
                path_names(self.nodes@, i),
            ) == Some(state_of(self.nodes@[i].state@)));
            assert(self.nodes@[i].running_cost as int == plan_cost(config.actions@, path_names(self.nodes@, i)));
        }
        plan
    }

    /// Whether a later action has the same name as action `k`.
    fn replaced_later(config: &PlanConfig, k: usize) -> (r: bool)
        requires
            k < config.actions@.len(),
        ensures
            r == replaced(config.actions@, k as int),
    {
        let n = config.actions.len();
        let mut j: usize = k + 1;
        while j < n
            invariant
                n == config.actions@.len(),
                k < j <= n,
                forall|x: int| k < x < j ==> (#[trigger] config.actions@[x]).0@ != config.actions@[k as int].0@,
            decreases n - j,
        {
            if config.actions[j].0 == config.actions[k].0 {
                return true;
            }
            j = j + 1;
        }
        false
    }

    /// Expands node `start_node_index` with each available action. The best
    /// cost found so far never rises; it falls exactly when a cheaper goal
    /// node is found, and that node is returned. Afterwards no plan
    /// completing the start node with available actions is cheaper than it.
    fn build_graph(&mut self, start_node_index: usize, available_actions: &Vec<usize>) -> (r: Option<
        usize,
    >)
        requires
            old(self).search_ok(),
            start_node_index < old(self).nodes@.len(),
            forall|x: int|
                0 <= x < available_actions@.len() ==> (#[trigger] available_actions@[x])
                    < old(self).config.actions@.len() && !replaced(
                    old(self).config.actions@,
                    available_actions@[x] as int,
                ),
        ensures
            final(self).search_ok(),
            final(self).problem() == old(self).problem(),
            final(self).nodes@.len() >= old(self).nodes@.len(),
            forall|i: int| 0 <= i < old(self).nodes@.len() ==> #[trigger] final(self).nodes@[i] == old(self).nodes@[i],
            final(self).cheapest <= old(self).cheapest,
            r is None ==> final(self).cheapest == old(self).cheapest,
            r is Some ==> final(self).goal_node(r->0 as int) && final(self).nodes@[r->0 as int].running_cost
                == final(self).cheapest && final(self).cheapest < old(self).cheapest,
            forall|ks: Seq<usize>|
                #[trigger] completes(
                    old(self).problem(),
                    available_actions@,
                    state_of(old(self).nodes@[start_node_index as int].state@),
                    ks,
                ) ==> final(self).cheapest as int <= old(self).nodes@[start_node_index as int].running_cost
                    + indices_cost(old(self).problem().actions@, ks),
        decreases available_actions@.len(),
    {
        let config: &'a PlanConfig = self.config;
        let ghost cfg = *config;
        let ghost acts = config.actions@;
        let ghost world = state_of(config.world_state@);
        let ghost avail = available_actions@;
        let mut leaf: Option<usize> = None;
        let next_state_base = copy_state(&self.nodes[start_node_index].state);
        let ghost base_path = path_names(self.nodes@, start_node_index as int);
        let ghost base = state_of(next_state_base@);
        assert(run_plan(acts, world, base_path) == Some(base));
        let running_cost = self.nodes[start_node_index].running_cost;
        assert(running_cost as int == plan_cost(acts, base_path));
        let mut p: usize = 0;
        while p < available_actions.len()
            invariant
                self.search_ok(),
                self.problem() == old(self).problem(),
                *config == self.problem(),
                cfg == *config,
                acts == config.actions@,
                world == state_of(config.world_state@),
                avail == available_actions@,
                p <= avail.len(),
                start_node_index < self.nodes@.len(),
                self.nodes@.len() >= old(self).nodes@.len(),
                forall|i: int| 0 <= i < old(self).nodes@.len() ==> #[trigger] self.nodes@[i] == old(self).nodes@[i],
                path_names(self.nodes@, start_node_index as int) == base_path,
                run_plan(acts, world, base_path) == Some(base),
                base == state_of(next_state_base@),
                base == state_of(old(self).nodes@[start_node_index as int].state@),
                running_cost == old(self).nodes@[start_node_index as int].running_cost,
                running_cost as int == plan_cost(acts, base_path),
                forall|x: int|
                    0 <= x < avail.len() ==> (#[trigger] avail[x]) < acts.len() && !replaced(
                        acts,
                        avail[x] as int,
                    ),
                self.cheapest <= old(self).cheapest,
                leaf is None ==> self.cheapest == old(self).cheapest,
                leaf is Some ==> self.goal_node(leaf->0 as int) && self.nodes@[leaf->0 as int].running_cost
                    == self.cheapest && self.cheapest < old(self).cheapest,
                forall|ks: Seq<usize>|
                    #[trigger] completes(cfg, avail, base, ks) && (exists|q: int| 0 <= q < p && avail[q] == ks[0])
                        ==> self.cheapest as int <= running_cost + indices_cost(acts, ks),
            decreases available_actions@.len() - p,
        {
            let k = available_actions[p];
            let key = &config.actions[k].0;
            let action = &config.actions[k].1;
            let ghost cheap0 = self.cheapest;
            let met = action.are_preconditions_met(&next_state_base);
            if met {
                match running_cost.checked_add(action.cost) {
                    Some(cost) => {
                        if cost <= self.cheapest {
                            let mut next_state = copy_state(&next_state_base);
                            action.update_with_post_conditions(&mut next_state);
                            let reached = goal_reached(&config.goals, &next_state);
                            let next_node = Gnode {
                                id: key.clone(),
                                from_node: Some(start_node_index),
                                state: next_state,
                                running_cost: cost,
                            };
                            let ghost child_state = state_of(next_node.state@);
                            let ghost old_nodes = self.nodes@;
                            self.nodes.push(next_node);
                            let new_index = self.nodes.len() - 1;
                            proof {
                                lemma_action_named(acts, k as int);
                                assert(key@ == acts[k as int].0@);
                                assert(*action == acts[k as int].1);
                                assert(includes(base, state_of(action.pre_state@)));
                                assert(base.union_prefer_right(state_of(action.post_state@)) == child_state);
                                assert(base_path.push(key@).drop_last() =~= base_path);
                                assert(run_plan(acts, world, base_path.push(key@)) == Some(child_state));
                                assert(plan_cost(acts, base_path.push(key@)) == running_cost + action.cost);
                                assert forall|i: int| 0 <= i < old_nodes.len() implies path_names(
                                    self.nodes@,
                                    i,
                                ) == path_names(old_nodes, i) by {
                                    lemma_path_push(old_nodes, next_node, i);
                                }
                                assert(self.nodes@[new_index as int] == next_node);
                                assert(path_names(self.nodes@, new_index as int) == base_path.push(
                                    key@,
                                ));
                                assert(base_path.push(key@).drop_last() =~= base_path);
                                assert forall|i: int| 0 <= i < self.nodes@.len() implies run_plan(
                                    acts,
                                    world,
                                    path_names(self.nodes@, i),
                                ) == Some(state_of((#[trigger] self.nodes@[i]).state@)) by {
                                    if i < old_nodes.len() {
                                        assert(self.nodes@[i] == old_nodes[i]);
                                    }
                                }
                                assert forall|i: int| 0 <= i < self.nodes@.len() implies (#[trigger] self.nodes@[i]).running_cost as int
                                    == plan_cost(acts, path_names(self.nodes@, i)) by {
                                    if i < old_nodes.len() {
                                        assert(self.nodes@[i] == old_nodes[i]);
                                    }
                                }
                                assert forall|i: int| 0 <= i < self.nodes@.len() implies match (
                                #[trigger] self.nodes@[i]).from_node {
                                    Some(q) => q < i,
                                    None => true,
                                } by {
                                    if i < old_nodes.len() {
                                        assert(self.nodes@[i] == old_nodes[i]);
                                    }
                                }
                                if leaf is Some {
                                    assert(self.nodes@[leaf->0 as int] == old_nodes[leaf->0 as int]);
                                }
                            }
                            if reached {
                                if self.cheapest > cost {
                                    leaf = Some(new_index);
                                    self.cheapest = cost;
                                }
                                proof {
                                    assert forall|ks: Seq<usize>|
                                        #[trigger] completes(cfg, avail, base, ks) && ks[0] == k implies self.cheapest as int
                                            <= running_cost + indices_cost(acts, ks) by {
                                        lemma_indices_cost_nonneg(acts, ks.drop_first());
                                    }
                                }
                            } else {
                                let mut next_available: Vec<usize> = Vec::new();
                                let mut q: usize = 0;
                                while q < available_actions.len()
                                    invariant
                                        avail == available_actions@,
                                        q <= avail.len(),
                                        p < avail.len(),
                                        next_available@.len() <= q,
                                        q > p ==> next_available@.len() < q,
                                        forall|x: int|
                                            0 <= x < next_available@.len() ==> (
                                            #[trigger] next_available@[x]) < acts.len() && !replaced(
                                                acts,
                                                next_available@[x] as int,
                                            ),
                                        forall|x: int|
                                            0 <= x < avail.len() ==> (#[trigger] avail[x]) < acts.len()
                                                && !replaced(acts, avail[x] as int),
                                        forall|x: int|
                                            0 <= x < q && x != p ==> next_available@.contains(#[trigger] avail[x]),
                                    decreases available_actions@.len() - q,
                                {
                                    if q != p {
                                        let ghost before = next_available@;
                                        next_available.push(available_actions[q]);
                                        assert forall|x: int|
                                            0 <= x < q + 1 && x != p implies next_available@.contains(#[trigger] avail[x]) by {
                                            if x < q {
                                                let w = choose|w: int| 0 <= w < before.len() && before[w] == avail[x];
                                                assert(next_available@[w] == avail[x]);
                                            } else {
                                                assert(next_available@[next_available@.len() - 1] == avail[x]);
                                            }
                                        }
                                    }
                                    q = q + 1;
                                }
                                let ghost mid = self.nodes@;
                                let ghost cheap1 = self.cheapest;
                                let ghost next_avail = next_available@;
                                assert(self.nodes@[new_index as int].state@ == next_node.state@);
                                let leaf_internal = self.build_graph(new_index, &next_available);
                                if let Some(leaf_index) = leaf_internal {
                                    leaf = Some(leaf_index);
                                }
                                proof {
                                    assert(self.nodes@[start_node_index as int] == mid[start_node_index as int]);
                                    assert forall|i: int| 0 <= i < old(self).nodes@.len() implies #[trigger] self.nodes@[i] == old(self).nodes@[i] by {
                                        assert(self.nodes@[i] == mid[i]);
                                    }
                                    lemma_path_prefix(mid, self.nodes@, start_node_index as int);
                                    if leaf is Some && leaf_internal is None {
                                        assert(self.nodes@[leaf->0 as int] == mid[leaf->0 as int]);
                                    }
                                    assert forall|ks: Seq<usize>|
                                        #[trigger] completes(cfg, avail, base, ks) && ks[0] == k implies self.cheapest as int
                                            <= running_cost + indices_cost(acts, ks) by {
                                        let rest = ks.drop_first();
                                        lemma_indices_cost_nonneg(acts, rest);
                                        assert(base.union_prefer_right(state_of(acts[k as int].1.post_state@)) == child_state);
                                        if rest.len() == 0 {
                                            assert(run_indices(acts, child_state, rest) == Some(child_state));
                                        } else {
                                            assert forall|j: int| 0 <= j < rest.len() implies next_avail.contains(#[trigger] rest[j]) by {
                                                assert(rest[j] == ks[j + 1]);
                                                assert(ks[0] != ks[j + 1]);
                                                assert(avail.contains(ks[j + 1]));
                                                let x = choose|x: int| 0 <= x < avail.len() && avail[x] == ks[j + 1];
                                                assert(x != p);
                                            }
                                            assert(rest.no_duplicates()) by {
                                                assert forall|a: int, b: int| 0 <= a < rest.len() && 0 <= b < rest.len() && a != b implies rest[a] != rest[b] by {
                                                    assert(rest[a] == ks[a + 1] && rest[b] == ks[b + 1]);
                                                }
                                            }
                                            assert(completes(cfg, next_avail, child_state, rest));
                                        }
                                    }
                                }
                            }
                        } else {
                            proof {
                                assert forall|ks: Seq<usize>|
                                    #[trigger] completes(cfg, avail, base, ks) && ks[0] == k implies self.cheapest as int
                                        <= running_cost + indices_cost(acts, ks) by {
                                    lemma_indices_cost_nonneg(acts, ks.drop_first());
                                }
                            }
                        }
                    },
                    None => {
                        proof {
                            assert forall|ks: Seq<usize>|
                                #[trigger] completes(cfg, avail, base, ks) && ks[0] == k implies self.cheapest as int
                                    <= running_cost + indices_cost(acts, ks) by {
                                lemma_indices_cost_nonneg(acts, ks.drop_first());
                            }
                        }
                    },
                }
            } else {
                proof {
                    assert(*action == acts[k as int].1);
                    assert(!includes(base, state_of(acts[k as int].1.pre_state@)));
                    assert forall|ks: Seq<usize>|
                        #[trigger] completes(cfg, avail, base, ks) && ks[0] == k implies self.cheapest as int
                            <= running_cost + indices_cost(acts, ks) by {
                        assert(ks.len() > 0);
                        assert(run_indices(acts, base, ks) is None);
                    }
                }
            }
            proof {
                assert forall|ks: Seq<usize>|
                    #[trigger] completes(cfg, avail, base, ks) && (exists|q: int| 0 <= q < p + 1 && avail[q] == ks[0])
                        implies self.cheapest as int <= running_cost + indices_cost(acts, ks) by {
                    if ks[0] != k {
                        let q = choose|q: int| 0 <= q < p + 1 && avail[q] == ks[0];
                        assert(q < p);
                    }
                }
            }
            p = p + 1;
        }
        proof {
            assert forall|ks: Seq<usize>| #[trigger] completes(cfg, avail, base, ks) implies self.cheapest as int
                <= running_cost + indices_cost(acts, ks) by {
                assert(avail.contains(ks[0]));
                let q = choose|q: int| 0 <= q < avail.len() && avail[q] == ks[0];
            }
        }
        leaf
    }
}

/// A node's path only depends on the nodes up to it.
proof fn lemma_path_prefix(a: Seq<Gnode>, b: Seq<Gnode>, i: int)
    requires
        0 <= i < a.len() <= b.len(),
        forall|j: int| 0 <= j < a.len() ==> #[trigger] b[j] == a[j],
    ensures
        path_names(b, i) == path_names(a, i),
    decreases i,
{
    assert(b[i] == a[i]);
    match a[i].from_node {
        Some(p) => if p < i {
            lemma_path_prefix(a, b, p as int);
        },
        None => {},
    }
}

} // verus!
