//! Making a graph smaller by applying passes to it.

use vstd::prelude::*;

use std::cmp::Ordering;

use crate::graph::Graph;
#[allow(unused_imports)]
use crate::graph::Node;
use crate::size::Size;
#[allow(unused_imports)]
use crate::size::{law_size_counts_parts_of_graph, size_of};

verus! {

/// How many rounds of passes are applied to a graph at most.
pub const DEFAULT_ITER_LIMIT: usize = 20;

/// Whether applying the passes one after the other can turn one graph into another, going through
/// the given graphs.
pub open spec fn passes_through<S, D, P: Fn(Graph<S>, &D) -> Graph<S>>(
    passes: Seq<P>,
    data: &D,
    graphs: Seq<Graph<S>>,
) -> bool {
    &&& graphs.len() == passes.len() + 1
    &&& forall|i: int|
        0 <= i < passes.len() ==> call_ensures(
            #[trigger] passes[i],
            (graphs[i], data),
            graphs[i + 1],
        )
}

/// Whether applying the passes one after the other can turn one graph into another.
pub open spec fn turns_into<S, D, P: Fn(Graph<S>, &D) -> Graph<S>>(
    passes: Seq<P>,
    data: &D,
    before: Graph<S>,
    after: Graph<S>,
) -> bool {
    exists|graphs: Seq<Graph<S>>| #[trigger]
        passes_through(passes, data, graphs) && graphs[0] == before && graphs.last() == after
}

/// Whether a round of passes has made a graph strictly smaller, or smaller in some respect and
/// larger in another.
pub open spec fn is_progress<S>(before: Graph<S>, after: Graph<S>) -> bool {
    size_of(after).is_less_somewhere(&size_of(before))
}

/// Whether the given graphs can be those before the first and after each round of passes: there are
/// at most `limit` rounds, and no more than one round without progress, which is the last one.
pub open spec fn optimises_through<S, D, P: Fn(Graph<S>, &D) -> Graph<S>>(
    passes: Seq<P>,
    data: &D,
    limit: usize,
    graphs: Seq<Graph<S>>,
) -> bool {
    &&& 1 <= graphs.len() <= limit + 1
    &&& forall|i: int|
        0 <= i < graphs.len() - 1 ==> turns_into(passes, data, #[trigger] graphs[i], graphs[i + 1])
    &&& forall|i: int|
        0 <= i < graphs.len() - 2 ==> is_progress(#[trigger] graphs[i], graphs[i + 1])
    &&& graphs.len() == limit + 1 || (graphs.len() >= 2 && !is_progress(
        graphs[graphs.len() - 2],
        graphs.last(),
    ))
}

/// Whether optimising with the given passes can turn one graph into another.
pub open spec fn optimises_into<S, D, P: Fn(Graph<S>, &D) -> Graph<S>>(
    passes: Seq<P>,
    data: &D,
    limit: usize,
    before: Graph<S>,
    after: Graph<S>,
) -> bool {
    exists|graphs: Seq<Graph<S>>| #[trigger]
        optimises_through(passes, data, limit, graphs) && graphs[0] == before && graphs.last()
            == after
}

/// Whether every pass can be applied to every graph.
pub open spec fn are_total<S, D, P: Fn(Graph<S>, &D) -> Graph<S>>(
    passes: Seq<P>,
    data: &D,
) -> bool {
    forall|i: int, graph: Graph<S>|
        0 <= i < passes.len() ==> #[trigger] call_requires(passes[i], (graph, data))
}

impl<S> Graph<S> {
    /// Applies passes to this graph, one after the other.
    pub fn run_passes<D, P: Fn(Graph<S>, &D) -> Graph<S>>(&mut self, passes: &Vec<P>, data: &D)
        requires
            are_total(passes@, data),
        ensures
            turns_into(passes@, data, *old(self), *final(self)),
    {
        let mut graph = Graph::empty();
        std::mem::swap(self, &mut graph);
        let ghost mut graphs: Seq<Graph<S>> = seq![graph];
        let mut i: usize = 0;
        while i < passes.len()
            invariant
                i <= passes@.len(),
                are_total(passes@, data),
                graphs.len() == i + 1,
                graphs[0] == *old(self),
                graphs.last() == graph,
                forall|j: int|
                    0 <= j < i ==> call_ensures(
                        #[trigger] passes@[j],
                        (graphs[j], data),
                        graphs[j + 1],
                    ),
            decreases passes@.len() - i,
        {
            let pass = &passes[i];
            graph = pass(graph, data);
            proof {
                graphs = graphs.push(graph);
            }
            i = i + 1;
        }
        assert(passes_through(passes@, data, graphs));
        *self = graph;
    }

    /// Repeatedly applies a sequence of passes until the graph stops getting smaller, or `limit`
    /// rounds are made.
    pub fn optimise_with_iter_limit<D, P: Fn(Graph<S>, &D) -> Graph<S>>(
        &mut self,
        passes: &Vec<P>,
        data: &D,
        limit: usize,
    )
        requires
            are_total(passes@, data),
        ensures
            optimises_into(passes@, data, limit, *old(self), *final(self)),
    {
        let ghost mut graphs: Seq<Graph<S>> = seq![*self];
        let mut last_size = Size::from(&*self);
        let mut i: usize = 0;
        while i < limit
            invariant
                i <= limit,
                are_total(passes@, data),
                last_size == size_of(*self),
                graphs.len() == i + 1,
                graphs[0] == *old(self),
                graphs.last() == *self,
                forall|j: int|
                    0 <= j < i ==> turns_into(passes@, data, #[trigger] graphs[j], graphs[j + 1])
                        && is_progress(graphs[j], graphs[j + 1]),
            decreases limit - i,
        {
            self.run_passes(passes, data);
            let ghost before = graphs;
            proof {
                graphs = graphs.push(*self);
                assert(graphs[graphs.len() - 2] == before.last());
            }
            let new_size = Size::from(&*self);
            match new_size.partial_cmp(&last_size) {
                Some(Ordering::Equal) | Some(Ordering::Greater) => {
                    assert(optimises_through(passes@, data, limit, graphs));
                    return ;
                },
                Some(Ordering::Less) | None => {},
            }
            last_size = new_size;
            i = i + 1;
        }
        assert(optimises_through(passes@, data, limit, graphs));
    }

    /// Repeatedly applies a sequence of passes until the graph stops getting smaller, or twenty
    /// rounds are made.
    pub fn optimise<D, P: Fn(Graph<S>, &D) -> Graph<S>>(&mut self, passes: &Vec<P>, data: &D)
        requires
            are_total(passes@, data),
        ensures
            optimises_into(passes@, data, DEFAULT_ITER_LIMIT, *old(self), *final(self)),
    {
        self.optimise_with_iter_limit(passes, data, DEFAULT_ITER_LIMIT);
    }
}

/// A round applies every pass once, in the order in which they are listed, each to what the one before
/// has left.  These are the graphs in between.
pub proof fn law_round_applies_every_pass_in_order<S, D, P: Fn(Graph<S>, &D) -> Graph<S>>(
    passes: Seq<P>,
    data: &D,
    before: Graph<S>,
    after: Graph<S>,
) -> (graphs: Seq<Graph<S>>)
    requires
        turns_into(passes, data, before, after),
    ensures
        graphs.len() == passes.len() + 1,
        graphs[0] == before,
        graphs[passes.len() as int] == after,
        forall|i: int|
            0 <= i < passes.len() ==> call_ensures(
                #[trigger] passes[i],
                (graphs[i], data),
                graphs[i + 1],
            ),
{
    choose|graphs: Seq<Graph<S>>| #[trigger]
        passes_through(passes, data, graphs) && graphs[0] == before && graphs.last() == after
}

/// Optimising goes on for as long as the number of nodes, of links, of starts or of ends goes down, and
/// no longer: every round but the last has made one of these numbers less, and if there were fewer
/// rounds than the limit allows, then the last one has made none of them less.  These are the graphs
/// before the first and after each round.
pub proof fn law_optimising_stops_when_nothing_gets_less<S, D, P: Fn(Graph<S>, &D) -> Graph<S>>(
    passes: Seq<P>,
    data: &D,
    limit: usize,
    before: Graph<S>,
    after: Graph<S>,
) -> (graphs: Seq<Graph<S>>)
    requires
        optimises_into(passes, data, limit, before, after),
    ensures
        1 <= graphs.len() <= limit + 1,
        graphs[0] == before,
        graphs[graphs.len() - 1] == after,
        forall|i: int|
            0 <= i < graphs.len() - 1 ==> turns_into(
                passes,
                data,
                #[trigger] graphs[i],
                graphs[i + 1],
            ),
        ({
            let nodes = |graph: Graph<S>| graph.nodes.keys().len();
            let links = |graph: Graph<S>|
                graph.nodes.values().fold_left(
                    0int,
                    |sum: int, node: Node<S>| sum + node.successors@.len(),
                );
            let starts = |graph: Graph<S>| graph.start_nodes@.len();
            let ends = |graph: Graph<S>| graph.end_nodes@.len();
            let len = graphs.len();
            &&& forall|i: int|
                0 <= i < len - 2 ==> {
                    ||| nodes(graphs[i + 1]) < nodes(#[trigger] graphs[i])
                    ||| links(graphs[i + 1]) < links(graphs[i])
                    ||| starts(graphs[i + 1]) < starts(graphs[i])
                    ||| ends(graphs[i + 1]) < ends(graphs[i])
                }
            &&& len < limit + 1 ==> {
                &&& len >= 2
                &&& nodes(graphs[len - 1]) >= nodes(graphs[len - 2])
                &&& links(graphs[len - 1]) >= links(graphs[len - 2])
                &&& starts(graphs[len - 1]) >= starts(graphs[len - 2])
                &&& ends(graphs[len - 1]) >= ends(graphs[len - 2])
            }
        }),
{
    let graphs = choose|graphs: Seq<Graph<S>>| #[trigger]
        optimises_through(passes, data, limit, graphs) && graphs[0] == before && graphs.last()
            == after;
    assert forall|i: int| 0 <= i < graphs.len() implies {
        let graph = #[trigger] graphs[i];
        &&& size_of(graph).num_nodes == graph.nodes.keys().len()
        &&& size_of(graph).num_links == graph.nodes.values().fold_left(
            0int,
            |sum: int, node: Node<S>| sum + node.successors@.len(),
        )
        &&& size_of(graph).num_starts == graph.start_nodes@.len()
        &&& size_of(graph).num_ends == graph.end_nodes@.len()
    } by {
        law_size_counts_parts_of_graph(graphs[i]);
    }
    assert forall|i: int| 0 <= i < graphs.len() - 2 implies is_progress(
        #[trigger] graphs[i],
        graphs[i + 1],
    ) by {}
    graphs
}

/// Unless another limit is given, there are at most twenty rounds.
pub proof fn law_default_limit()
    ensures
        DEFAULT_ITER_LIMIT == 20,
{
}

/// What every pass keeps, a round of passes keeps.
proof fn lemma_round_keeps<S, D, P: Fn(Graph<S>, &D) -> Graph<S>>(
    passes: Seq<P>,
    data: &D,
    graphs: Seq<Graph<S>>,
    kept: spec_fn(Graph<S>) -> bool,
    i: int,
)
    requires
        passes_through(passes, data, graphs),
        forall|k: int, before: Graph<S>, after: Graph<S>|
            0 <= k < passes.len() && kept(before) && #[trigger] call_ensures(
                passes[k],
                (before, data),
                after,
            ) ==> kept(after),
        kept(graphs[0]),
        0 <= i < graphs.len(),
    ensures
        kept(graphs[i]),
    decreases i,
{
    if i > 0 {
        lemma_round_keeps(passes, data, graphs, kept, i - 1);
        let pass = passes[i - 1];
        assert(call_ensures(pass, (graphs[i - 1], data), graphs[i - 1 + 1]));
    }
}

proof fn lemma_rounds_keep<S, D, P: Fn(Graph<S>, &D) -> Graph<S>>(
    passes: Seq<P>,
    data: &D,
    limit: usize,
    graphs: Seq<Graph<S>>,
    kept: spec_fn(Graph<S>) -> bool,
    i: int,
)
    requires
        optimises_through(passes, data, limit, graphs),
        forall|k: int, before: Graph<S>, after: Graph<S>|
            0 <= k < passes.len() && kept(before) && #[trigger] call_ensures(
                passes[k],
                (before, data),
                after,
            ) ==> kept(after),
        kept(graphs[0]),
        0 <= i < graphs.len(),
    ensures
        kept(graphs[i]),
    decreases i,
{
    if i > 0 {
        lemma_rounds_keep(passes, data, limit, graphs, kept, i - 1);
        let before = graphs[i - 1];
        assert(turns_into(passes, data, before, graphs[i - 1 + 1]));
        let round = choose|round: Seq<Graph<S>>| #[trigger]
            passes_through(passes, data, round) && round[0] == before && round.last() == graphs[i];
        lemma_round_keeps(passes, data, round, kept, round.len() - 1);
    }
}

/// What every pass keeps, optimising keeps.
pub proof fn law_optimising_keeps<S, D, P: Fn(Graph<S>, &D) -> Graph<S>>(
    passes: Seq<P>,
    data: &D,
    limit: usize,
    before: Graph<S>,
    after: Graph<S>,
    kept: spec_fn(Graph<S>) -> bool,
)
    requires
        optimises_into(passes, data, limit, before, after),
        forall|k: int, before: Graph<S>, after: Graph<S>|
            0 <= k < passes.len() && kept(before) && #[trigger] call_ensures(
                passes[k],
                (before, data),
                after,
            ) ==> kept(after),
        kept(before),
    ensures
        kept(after),
{
    let graphs = choose|graphs: Seq<Graph<S>>| #[trigger]
        optimises_through(passes, data, limit, graphs) && graphs[0] == before && graphs.last()
            == after;
    lemma_rounds_keep(passes, data, limit, graphs, kept, graphs.len() - 1);
}

/// If no pass makes a graph larger in any respect, then neither does optimising.
pub proof fn law_optimising_never_grows<S, D, P: Fn(Graph<S>, &D) -> Graph<S>>(
    passes: Seq<P>,
    data: &D,
    limit: usize,
    before: Graph<S>,
    after: Graph<S>,
)
    requires
        optimises_into(passes, data, limit, before, after),
        forall|k: int, before: Graph<S>, after: Graph<S>|
            0 <= k < passes.len() && #[trigger] call_ensures(passes[k], (before, data), after)
                ==> !size_of(before).is_less_somewhere(&size_of(after)),
    ensures
        !size_of(before).is_less_somewhere(&size_of(after)),
{
    let kept = |graph: Graph<S>| !size_of(before).is_less_somewhere(&size_of(graph));
    law_optimising_keeps(passes, data, limit, before, after, kept);
}

/// Whether every pass always does the same to the same graph.
pub open spec fn are_deterministic<S, D, P: Fn(Graph<S>, &D) -> Graph<S>>(
    passes: Seq<P>,
    data: &D,
) -> bool {
    forall|k: int, before: Graph<S>, after: Graph<S>, other: Graph<S>|
        #![trigger
            call_ensures(passes[k], (before, data), after),
            call_ensures(passes[k], (before, data), other)
        ]
        0 <= k < passes.len() && call_ensures(passes[k], (before, data), after) && call_ensures(
            passes[k],
            (before, data),
            other,
        ) ==> after == other
}

proof fn lemma_round_is_deterministic<S, D, P: Fn(Graph<S>, &D) -> Graph<S>>(
    passes: Seq<P>,
    data: &D,
    a: Seq<Graph<S>>,
    b: Seq<Graph<S>>,
    i: int,
)
    requires
        are_deterministic(passes, data),
        passes_through(passes, data, a),
        passes_through(passes, data, b),
        a[0] == b[0],
        0 <= i < a.len(),
    ensures
        a[i] == b[i],
    decreases i,
{
    if i > 0 {
        lemma_round_is_deterministic(passes, data, a, b, i - 1);
        let pass = passes[i - 1];
        assert(call_ensures(pass, (a[i - 1], data), a[i - 1 + 1]));
        assert(call_ensures(pass, (b[i - 1], data), b[i - 1 + 1]));
    }
}

proof fn lemma_rounds_are_deterministic<S, D, P: Fn(Graph<S>, &D) -> Graph<S>>(
    passes: Seq<P>,
    data: &D,
    limit: usize,
    a: Seq<Graph<S>>,
    b: Seq<Graph<S>>,
    i: int,
)
    requires
        are_deterministic(passes, data),
        optimises_through(passes, data, limit, a),
        optimises_through(passes, data, limit, b),
        a[0] == b[0],
        0 <= i < a.len(),
        i < b.len(),
    ensures
        a[i] == b[i],
    decreases i,
{
    if i > 0 {
        lemma_rounds_are_deterministic(passes, data, limit, a, b, i - 1);
        let before = a[i - 1];
        assert(turns_into(passes, data, a[i - 1], a[i - 1 + 1]));
        assert(turns_into(passes, data, b[i - 1], b[i - 1 + 1]));
        let round_a = choose|round: Seq<Graph<S>>| #[trigger]
            passes_through(passes, data, round) && round[0] == before && round.last() == a[i];
        let round_b = choose|round: Seq<Graph<S>>| #[trigger]
            passes_through(passes, data, round) && round[0] == before && round.last() == b[i];
        lemma_round_is_deterministic(passes, data, round_a, round_b, round_a.len() - 1);
    }
}

proof fn lemma_as_many_rounds<S, D, P: Fn(Graph<S>, &D) -> Graph<S>>(
    passes: Seq<P>,
    data: &D,
    limit: usize,
    a: Seq<Graph<S>>,
    b: Seq<Graph<S>>,
)
    requires
        are_deterministic(passes, data),
        optimises_through(passes, data, limit, a),
        optimises_through(passes, data, limit, b),
        a[0] == b[0],
    ensures
        a.len() >= b.len(),
{
    if a.len() < b.len() {
        let last = a.len() - 1;
        lemma_rounds_are_deterministic(passes, data, limit, a, b, last);
        lemma_rounds_are_deterministic(passes, data, limit, a, b, last - 1);
        let before = b[last - 1];
        assert(is_progress(before, b[last - 1 + 1]));
    }
}

/// If every pass always does the same to the same graph, then so does optimising.
pub proof fn law_optimising_is_deterministic<S, D, P: Fn(Graph<S>, &D) -> Graph<S>>(
    passes: Seq<P>,
    data: &D,
    limit: usize,
    before: Graph<S>,
    after: Graph<S>,
    other: Graph<S>,
)
    requires
        are_deterministic(passes, data),
        optimises_into(passes, data, limit, before, after),
        optimises_into(passes, data, limit, before, other),
    ensures
        after == other,
{
    let a = choose|graphs: Seq<Graph<S>>| #[trigger]
        optimises_through(passes, data, limit, graphs) && graphs[0] == before && graphs.last()
            == after;
    let b = choose|graphs: Seq<Graph<S>>| #[trigger]
        optimises_through(passes, data, limit, graphs) && graphs[0] == before && graphs.last()
            == other;
    lemma_as_many_rounds(passes, data, limit, a, b);
    lemma_as_many_rounds(passes, data, limit, b, a);
    lemma_rounds_are_deterministic(passes, data, limit, a, b, a.len() - 1);
}

} // verus!
