//! What is searched for, and how.

use vstd::prelude::*;

use std::ops::Range;

#[allow(unused_imports)]
use crate::assemble::{can_finish, is_finished_graph};
use crate::expansion::Expansion;
#[allow(unused_imports)]
use crate::expansion::{can_expand, is_expansion_by, start_ids};
use crate::falseness::{CourseHeadEquivalences, FalsenessTable};
use crate::graph::Graph;
#[allow(unused_imports)]
use crate::graph::start_views;
use crate::layout::Layout;
use crate::music::{Breakdown, Scoring};
#[allow(unused_imports)]
use crate::music::can_score;
use crate::node_range::{NodeId, NodeRange, PerPartLength, Rotation, StartIdx};
#[allow(unused_imports)]
use crate::optimise::{
    are_deterministic, are_total, law_optimising_is_deterministic, optimises_into,
    DEFAULT_ITER_LIMIT,
};
use crate::primitives::Row;

verus! {

/// What specifies which compositions are generated.
///
/// Compare this to [`Config`], which determines how they are generated.
pub struct Query<M> {
    pub layout: Layout,
    pub music_types: Vec<M>,
    pub part_head: Row,
    pub len_range: Range<usize>,
    pub method_count_range: Range<usize>,
    pub num_comps: usize,
}

/// Parameters that don't change which compositions are generated.
pub struct Config<P> {
    /// The number of threads used to generate compositions.  If this is `None`, then there are as
    /// many as there are physical cores.
    pub num_threads: Option<usize>,
    /// How many compositions are considered at a time, by all threads together.
    pub queue_limit: usize,
    /// The passes that are applied to a graph before it is searched.
    pub optimisation_passes: Vec<P>,
}

/// How many compositions are considered at a time if nothing else is configured.
pub const DEFAULT_QUEUE_LIMIT: usize = 10_000_000;

impl<P> Config<P> {
    /// The default configuration, with the given passes.
    pub fn with_passes(optimisation_passes: Vec<P>) -> (config: Self)
        ensures
            config.num_threads is None,
            config.queue_limit == DEFAULT_QUEUE_LIMIT,
            config.queue_limit == 10_000_000,
            config.optimisation_passes == optimisation_passes,
    {
        Config { num_threads: None, queue_limit: DEFAULT_QUEUE_LIMIT, optimisation_passes }
    }

    /// Whether a search can use this number of threads.
    pub open spec fn allows_threads(&self, num_threads: usize) -> bool {
        match self.num_threads {
            Some(configured) => num_threads == configured,
            None => num_threads >= 1,
        }
    }

    /// The number of threads that are used to search a graph.
    pub fn threads_to_use(&self) -> (num_threads: usize)
        ensures
            self.allows_threads(num_threads),
            self.num_threads matches Some(configured) ==> num_threads == configured,
            self.num_threads is None ==> num_threads >= 1,
    {
        match self.num_threads {
            Some(num_threads) => num_threads,
            None => physical_cores(),
        }
    }
}

/// The number of physical cores, as `num_cpus::get_physical` counts them.
///
/// It is relied on that there is at least one.  How many there are depends on the machine.
#[verifier::external_body]
fn physical_cores() -> (cores: usize)
    ensures
        cores >= 1,
{
    num_cpus::get_physical()
}

/// What to produce instead of compositions.
#[derive(Debug, Clone, Copy, PartialEq, Eq, Structural)]
pub enum DebugOutput {
    /// Return the graph before it is optimised.
    Graph,
    /// Stop just before the search starts.
    StopBeforeSearch,
}

impl<T> Query<T> {
    /// Whether a composition of this length is not too long.
    pub open spec fn is_short_enough(&self, length: usize) -> bool {
        length < self.len_range.end
    }

    /// The greatest length of a composition.
    pub fn max_length(&self) -> (max_length: usize)
        requires
            self.len_range.end > 0,
        ensures
            max_length == self.len_range.end - 1,
            forall|length: usize| #[trigger]
                self.is_short_enough(length) <==> length <= max_length,
    {
        // The range excludes its end, but the greatest length is possible
        self.len_range.end - 1
    }

    /// Builds the graph of all nodes that a composition of at most the greatest length can get to
    /// the end of.  See [`Graph::from_layout`].
    pub fn unoptimised_graph<S: Copy, G, B, F, C, A>(
        &self,
        gen_range: G,
        start_nodes: Vec<(NodeId, StartIdx, Rotation)>,
        finish: B,
        falseness: F,
        scoring: &Scoring<S, C, A>,
    ) -> (graph: Graph<S>) where
        G: Fn(&NodeId) -> Option<NodeRange>,
        B: FnOnce(&Expansion) -> (CourseHeadEquivalences, Vec<Row>),
        F: FnOnce(&Vec<(NodeId, PerPartLength)>) -> FalsenessTable,
        C: Fn(&Vec<&Row>, &Row) -> Breakdown<S>,
        A: Fn(Breakdown<S>, Breakdown<S>) -> Breakdown<S>,

        requires
            self.len_range.end > 0,
            can_expand(gen_range, start_ids(start_nodes@), (self.len_range.end - 1) as nat),
            can_finish(
                self.layout,
                gen_range,
                start_ids(start_nodes@),
                (self.len_range.end - 1) as nat,
                finish,
                falseness,
            ),
            can_score(*scoring),
        ensures
            exists|expansion: Expansion| #[trigger]
                is_expansion_by(
                    gen_range,
                    start_ids(start_nodes@),
                    (self.len_range.end - 1) as nat,
                    expansion,
                ) && is_finished_graph(
                    graph,
                    self.layout,
                    expansion,
                    start_views(start_nodes@),
                    finish,
                    falseness,
                    *scoring,
                ),
    {
        Graph::from_layout(
            &self.layout,
            gen_range,
            start_nodes,
            self.max_length(),
            finish,
            falseness,
            scoring,
        )
    }
}

/// A graph that is ready to be searched.
pub struct SearchPlan<S> {
    pub graph: Graph<S>,
    /// How many compositions each of the threads considers at a time.
    pub queue_limits: Vec<usize>,
}

/// The queue limit of each thread, when a limit is divided among them.
pub open spec fn divided_limits(queue_limit: usize, num_threads: usize) -> Seq<usize> {
    Seq::new(num_threads as nat, |i: int| (queue_limit as int / num_threads as int) as usize)
}

/// Divides a queue limit among threads.
pub fn divide_queue_limit(queue_limit: usize, num_threads: usize) -> (limits: Vec<usize>)
    ensures
        limits@ == divided_limits(queue_limit, num_threads),
        limits@.len() == num_threads,
        forall|i: int|
            0 <= i < limits@.len() ==> #[trigger] limits@[i] == queue_limit as int
                / num_threads as int,
{
    let mut limits: Vec<usize> = Vec::new();
    while limits.len() < num_threads
        invariant
            limits@.len() <= num_threads,
            forall|i: int|
                0 <= i < limits@.len() ==> #[trigger] limits@[i] == queue_limit / num_threads,
        decreases num_threads - limits@.len(),
    {
        limits.push(queue_limit / num_threads);
    }
    proof {
        if num_threads > 0 {
            lemma_share_fits(queue_limit, num_threads);
        }
        assert(limits@ =~= divided_limits(queue_limit, num_threads));
    }
    limits
}

/// Every thread is given the same share of a queue limit, and as much as can be given to all of them.
pub proof fn law_queue_limit_is_shared(queue_limit: usize, num_threads: usize)
    ensures
        divided_limits(queue_limit, num_threads).len() == num_threads,
        forall|i: int|
            0 <= i < num_threads ==> (#[trigger] divided_limits(queue_limit, num_threads)[i])
                * num_threads <= queue_limit < (divided_limits(queue_limit, num_threads)[i] + 1)
                * num_threads,
{
    if num_threads > 0 {
        let each = queue_limit / num_threads;
        lemma_share_fits(queue_limit, num_threads);
        assert(each * num_threads <= queue_limit < (each + 1) * num_threads) by (nonlinear_arith)
            requires
                num_threads > 0,
                each == queue_limit / num_threads,
        ;
    }
}

/// The sum of some limits.
pub open spec fn total(limits: Seq<usize>) -> nat
    decreases limits.len(),
{
    if limits.len() == 0 {
        0
    } else {
        total(limits.drop_last()) + limits.last() as nat
    }
}

/// All threads together do not consider more compositions at a time than configured.
pub proof fn law_queue_limit_is_kept(queue_limit: usize, num_threads: usize)
    ensures
        total(divided_limits(queue_limit, num_threads)) <= queue_limit,
{
    let limits = divided_limits(queue_limit, num_threads);
    if num_threads > 0 {
        let each = queue_limit / num_threads;
        lemma_share_fits(queue_limit, num_threads);
        lemma_total_of_equals(limits, each);
        assert(num_threads * each <= queue_limit) by (nonlinear_arith)
            requires
                num_threads > 0,
                each == queue_limit / num_threads,
        ;
    }
}

proof fn lemma_share_fits(queue_limit: usize, num_threads: usize)
    requires
        num_threads > 0,
    ensures
        0 <= queue_limit / num_threads <= queue_limit,
{
    assert(0 <= queue_limit / num_threads <= queue_limit) by (nonlinear_arith)
        requires
            num_threads > 0,
    ;
}

proof fn lemma_total_of_equals(limits: Seq<usize>, each: usize)
    requires
        forall|i: int| 0 <= i < limits.len() ==> limits[i] == each,
    ensures
        total(limits) == limits.len() * each,
    decreases limits.len(),
{
    if limits.len() > 0 {
        lemma_total_of_equals(limits.drop_last(), each);
        assert(limits.len() * each == (limits.len() - 1) * each + each) by (nonlinear_arith);
    }
}

/// Whether this is a plan to search a graph: it is optimised, and the queue limit is divided among as
/// many threads as are configured.
pub open spec fn is_plan<S, D, P: Fn(Graph<S>, &D) -> Graph<S>>(
    config: Config<P>,
    data: &D,
    graph: Graph<S>,
    plan: SearchPlan<S>,
) -> bool {
    &&& optimises_into(
        config.optimisation_passes@,
        data,
        DEFAULT_ITER_LIMIT,
        graph,
        plan.graph,
    )
    &&& exists|num_threads: usize| #[trigger]
        config.allows_threads(num_threads) && plan.queue_limits@ == divided_limits(
            config.queue_limit,
            num_threads,
        )
}

/// A plan to search a graph has the graph that at most twenty rounds of the configured passes leave, and
/// a share of the queue limit for each thread.  There are as many threads as configured, or at least one
/// if nothing is configured.
pub proof fn law_plan_follows_config<S, D, P: Fn(Graph<S>, &D) -> Graph<S>>(
    config: Config<P>,
    data: &D,
    graph: Graph<S>,
    plan: SearchPlan<S>,
)
    requires
        is_plan(config, data, graph, plan),
    ensures
        optimises_into(config.optimisation_passes@, data, 20, graph, plan.graph),
        config.num_threads matches Some(configured) ==> plan.queue_limits@.len() == configured,
        config.num_threads is None ==> plan.queue_limits@.len() >= 1,
        forall|i: int|
            0 <= i < plan.queue_limits@.len() ==> (#[trigger] plan.queue_limits@[i])
                * plan.queue_limits@.len() <= config.queue_limit < (plan.queue_limits@[i] + 1)
                * plan.queue_limits@.len(),
{
    let num_threads = choose|num_threads: usize| #[trigger]
        config.allows_threads(num_threads) && plan.queue_limits@ == divided_limits(
            config.queue_limit,
            num_threads,
        );
    law_queue_limit_is_shared(config.queue_limit, num_threads);
}

/// The compositions that are found when one thread for each of the queue limits searches a graph,
/// where `search` gives what a single thread finds.
pub open spec fn found_by_threads<S, C>(
    search: spec_fn(Graph<S>, usize) -> Set<C>,
    graph: Graph<S>,
    queue_limits: Seq<usize>,
) -> Set<C> {
    Set::new(
        |comp: C|
            exists|i: int|
                0 <= i < queue_limits.len() && search(graph, #[trigger] queue_limits[i]).contains(
                    comp,
                ),
    )
}

/// The number of threads does not change which compositions are found, as long as there are any
/// threads.  This is so for every search that finds the same compositions whatever its queue limit,
/// provided that the passes always do the same to the same graph.
pub proof fn law_num_threads_does_not_change_compositions<
    S,
    D,
    P: Fn(Graph<S>, &D) -> Graph<S>,
    C,
>(
    a: Config<P>,
    b: Config<P>,
    data: &D,
    graph: Graph<S>,
    plan_a: SearchPlan<S>,
    plan_b: SearchPlan<S>,
    search: spec_fn(Graph<S>, usize) -> Set<C>,
)
    requires
        a.queue_limit == b.queue_limit,
        a.optimisation_passes == b.optimisation_passes,
        a.num_threads != Some(0usize),
        b.num_threads != Some(0usize),
        is_plan(a, data, graph, plan_a),
        is_plan(b, data, graph, plan_b),
        are_deterministic(a.optimisation_passes@, data),
        forall|graph: Graph<S>, limit: usize, other: usize|
            #![trigger search(graph, limit), search(graph, other)]
            search(graph, limit) == search(graph, other),
    ensures
        plan_a.graph == plan_b.graph,
        found_by_threads(search, plan_a.graph, plan_a.queue_limits@) == found_by_threads(
            search,
            plan_b.graph,
            plan_b.queue_limits@,
        ),
{
    law_optimising_is_deterministic(
        a.optimisation_passes@,
        data,
        DEFAULT_ITER_LIMIT,
        graph,
        plan_a.graph,
        plan_b.graph,
    );
    let limits_a = plan_a.queue_limits@;
    let limits_b = plan_b.queue_limits@;
    let found_a = found_by_threads(search, plan_a.graph, limits_a);
    let found_b = found_by_threads(search, plan_b.graph, limits_b);
    assert(limits_a.len() > 0 && limits_b.len() > 0);
    assert forall|comp: C| found_a.contains(comp) <==> found_b.contains(comp) by {
        if found_a.contains(comp) {
            let i = choose|i: int|
                0 <= i < limits_a.len() && search(
                    plan_a.graph,
                    #[trigger] limits_a[i],
                ).contains(comp);
            assert(search(plan_b.graph, limits_b[0]) == search(plan_a.graph, limits_a[i]));
        }
        if found_b.contains(comp) {
            let i = choose|i: int|
                0 <= i < limits_b.len() && search(
                    plan_b.graph,
                    #[trigger] limits_b[i],
                ).contains(comp);
            assert(search(plan_a.graph, limits_a[0]) == search(plan_b.graph, limits_b[i]));
        }
    }
    assert(found_a =~= found_b);
}

/// Prepares the search of a graph: the graph is optimised and the queue limit is divided among the
/// threads, unless the search is not wanted.
///
/// If the graph itself is wanted, then it is returned as it is, as `Err(Some(_))`.  If nothing is
/// to be searched, then `Err(None)` is returned, but only after the graph has been optimised.  Whenever
/// the graph has been optimised, it is handed to `report`.
pub fn prepare_search<S, D, P, R>(
    graph: Graph<S>,
    config: &Config<P>,
    data: &D,
    debug_output: Option<DebugOutput>,
    report: R,
) -> (result: Result<SearchPlan<S>, Option<Graph<S>>>) where
    P: Fn(Graph<S>, &D) -> Graph<S>,
    R: FnOnce(&Graph<S>),

    requires
        are_total(config.optimisation_passes@, data),
        forall|optimised: &Graph<S>| #[trigger] call_requires(report, (optimised,)),
    ensures
        match debug_output {
            Some(DebugOutput::Graph) => result == Err::<SearchPlan<S>, _>(Some(graph)),
            Some(DebugOutput::StopBeforeSearch) => {
                &&& result == Err::<SearchPlan<S>, _>(None::<Graph<S>>)
                &&& exists|optimised: Graph<S>| #[trigger]
                    optimises_into(
                        config.optimisation_passes@,
                        data,
                        DEFAULT_ITER_LIMIT,
                        graph,
                        optimised,
                    ) && call_ensures(report, (&optimised,), ())
            },
            None => result matches Ok(plan) && {
                &&& is_plan(*config, data, graph, plan)
                &&& call_ensures(report, (&plan.graph,), ())
            },
        },
{
    if debug_output == Some(DebugOutput::Graph) {
        return Err(Some(graph));
    }
    let mut graph = graph;
    graph.optimise(&config.optimisation_passes, data);
    report(&graph);
    assert(call_ensures(report, (&graph,), ()));
    if debug_output == Some(DebugOutput::StopBeforeSearch) {
        return Err(None);
    }
    let num_threads: usize = config.threads_to_use();
    let queue_limits = divide_queue_limit(config.queue_limit, num_threads);
    Ok(SearchPlan { graph, queue_limits })
}

/// Whether `order` lists every position of `keys` once, so that the keys ascend and equal keys keep
/// their order.
pub open spec fn is_ascending_order(keys: Seq<i64>, order: Seq<int>) -> bool {
    &&& order.len() == keys.len()
    &&& order.no_duplicates()
    &&& forall|i: int| 0 <= i < order.len() ==> 0 <= #[trigger] order[i] < keys.len()
    &&& forall|i: int, j: int|
        0 <= i < j < order.len() ==> comes_before(keys, #[trigger] order[i], #[trigger] order[j])
}

/// Whether the key at one position comes before the key at another.
pub open spec fn comes_before(keys: Seq<i64>, a: int, b: int) -> bool {
    keys[a] < keys[b] || (keys[a] == keys[b] && a < b)
}

/// The scores of some compositions.
pub open spec fn scores<C>(comps: Seq<(i64, C)>) -> Seq<i64> {
    comps.map_values(|comp: (i64, C)| comp.0)
}

/// Sorting takes each composition once, and puts those of lower scores before those of higher scores and
/// those of the same score in the order in which they were.
pub proof fn law_sorting_is_ascending_and_stable<C>(comps: Seq<(i64, C)>, order: Seq<int>)
    requires
        is_ascending_order(scores(comps), order),
    ensures
        order.len() == comps.len(),
        forall|i: int| 0 <= i < order.len() ==> 0 <= #[trigger] order[i] < comps.len(),
        forall|k: int| 0 <= k < comps.len() ==> #[trigger] order.contains(k),
        forall|i: int, j: int|
            0 <= i < j < order.len() ==> {
                let (a, b) = (#[trigger] order[i], #[trigger] order[j]);
                &&& comps[a].0 <= comps[b].0
                &&& comps[a].0 == comps[b].0 ==> a < b
            },
{
    let keys = scores(comps);
    assert forall|i: int, j: int| 0 <= i < j < order.len() implies {
        let (a, b) = (#[trigger] order[i], #[trigger] order[j]);
        &&& comps[a].0 <= comps[b].0
        &&& comps[a].0 == comps[b].0 ==> a < b
    } by {
        assert(comes_before(keys, order[i], order[j]));
        assert(keys[order[i]] == comps[order[i]].0 && keys[order[j]] == comps[order[j]].0);
    }
    let positions = vstd::set_lib::set_int_range(0, comps.len() as int);
    order.unique_seq_to_set();
    vstd::set_lib::lemma_int_range(0, comps.len() as int);
    vstd::seq_lib::seq_to_set_is_finite(order);
    assert(order.to_set().subset_of(positions));
    vstd::set_lib::lemma_subset_equality(order.to_set(), positions);
    assert forall|k: int| 0 <= k < comps.len() implies #[trigger] order.contains(k) by {
        assert(order.to_set().contains(k));
    }
}

/// Sorting loses no composition, and adds none.
pub proof fn law_sorting_keeps_compositions<C>(
    comps: Seq<(i64, C)>,
    order: Seq<int>,
    comp: (i64, C),
)
    requires
        is_ascending_order(scores(comps), order),
    ensures
        order.map_values(|i: int| comps[i]).contains(comp) <==> comps.contains(comp),
{
    let sorted = order.map_values(|i: int| comps[i]);
    if sorted.contains(comp) {
        let i = sorted.index_of(comp);
        assert(comps[order[i]] == comp);
    }
    if comps.contains(comp) {
        let i = comps.index_of(comp);
        let positions = vstd::set_lib::set_int_range(0, comps.len() as int);
        order.unique_seq_to_set();
        vstd::set_lib::lemma_int_range(0, comps.len() as int);
        vstd::seq_lib::seq_to_set_is_finite(order);
        assert(order.to_set().subset_of(positions));
        vstd::set_lib::lemma_subset_equality(order.to_set(), positions);
        assert(order.to_set().contains(i));
        let j = order.index_of(i);
        assert(sorted[j] == comp);
    }
}

/// Sorts compositions in ascending order of their scores.  Compositions of the same score keep
/// their order.
pub fn in_ascending_order<C>(comps: Vec<(i64, C)>) -> (sorted: Vec<(i64, C)>)
    ensures
        exists|order: Seq<int>| #[trigger]
            is_ascending_order(scores(comps@), order) && sorted@ == order.map_values(
                |i: int| comps@[i],
            ),
{
    let ghost all = comps@;
    let ghost keys = scores(all);
    let mut comps = comps;
    let ghost mut order: Seq<int> = Seq::new(all.len(), |i: int| i);
    let len: usize = comps.len();
    let mut i: usize = 0;
    while i < len
        invariant
            i <= len,
            len == all.len(),
            len == comps@.len(),
            keys == scores(all),
            order.len() == len,
            order.no_duplicates(),
            forall|j: int| 0 <= j < len ==> 0 <= #[trigger] order[j] < len,
            forall|j: int| i <= j < len ==> #[trigger] order[j] == j,
            forall|j: int| 0 <= j < i ==> #[trigger] order[j] < i,
            forall|j: int| 0 <= j < len ==> #[trigger] comps@[j] == all[order[j]],
            forall|j: int, k: int|
                0 <= j < k < i ==> comes_before(keys, #[trigger] order[j], #[trigger] order[k]),
        decreases len - i,
    {
        let mut place: usize = i;
        while place > 0 && comps[place - 1].0 > comps[place].0
            invariant
                place <= i < len,
                len == all.len(),
                len == comps@.len(),
                keys == scores(all),
                order.len() == len,
                order.no_duplicates(),
                order[place as int] == i,
                forall|j: int| 0 <= j < len ==> 0 <= #[trigger] order[j] < len,
                forall|j: int| i < j < len ==> #[trigger] order[j] == j,
                forall|j: int| 0 <= j <= i ==> #[trigger] order[j] <= i,
                forall|j: int| 0 <= j < len ==> #[trigger] comps@[j] == all[order[j]],
                forall|j: int, k: int|
                    0 <= j < k <= i && j != place && k != place ==> comes_before(
                        keys,
                        #[trigger] order[j],
                        #[trigger] order[k],
                    ),
                forall|k: int|
                    place < k <= i ==> comes_before(keys, i as int, #[trigger] order[k]),
            decreases place,
        {
            let ghost before = order;
            comps.swap(place - 1, place);
            proof {
                let a = before[place - 1];
                order = before.update(place - 1, i as int).update(place as int, a);
                assert(keys[a] > keys[i as int]) by {
                    assert(before[place - 1] == a);
                }
                assert forall|j: int, k: int| 0 <= j < k < order.len() implies order[j]
                    != order[k] by {
                    let old_j = if j == place - 1 {
                        place as int
                    } else if j == place {
                        place - 1
                    } else {
                        j
                    };
                    let old_k = if k == place - 1 {
                        place as int
                    } else if k == place {
                        place - 1
                    } else {
                        k
                    };
                    assert(before[old_j] != before[old_k]);
                }
            }
            place = place - 1;
        }
        proof {
            assert forall|j: int, k: int| 0 <= j < k < i + 1 implies comes_before(
                keys,
                #[trigger] order[j],
                #[trigger] order[k],
            ) by {
                if k == place {
                    let last = order[place - 1];
                    assert(comps@[place - 1] == all[last]);
                    assert(comps@[place as int] == all[i as int]);
                    assert(keys[last] <= keys[i as int]);
                    assert(last <= i && last != order[place as int]);
                    if j < place - 1 {
                        assert(comes_before(keys, order[j], order[place - 1]));
                    }
                }
            }
        }
        i = i + 1;
    }
    proof {
        assert(is_ascending_order(keys, order));
        assert(comps@ =~= order.map_values(|i: int| all[i]));
    }
    comps
}

} // verus!
