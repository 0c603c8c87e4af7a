//! How large a graph is.

use vstd::prelude::*;

use std::cmp::Ordering;

use crate::graph::{Graph, Node};
#[allow(unused_imports)]
use crate::keyed::lemma_entries_fit;

verus! {

/// A measure of the size of a graph, used to detect when further optimisations aren't useful.
///
/// Sizes are only partially ordered: one that is smaller in some respect and larger in another is
/// neither smaller nor larger.
#[derive(Debug, Clone, Copy, PartialEq, Structural)]
pub struct Size {
    pub num_nodes: usize,
    pub num_links: u128,
    pub num_starts: usize,
    pub num_ends: usize,
}

impl Size {
    /// Whether this size is smaller than another in some respect.
    pub open spec fn is_less_somewhere(&self, other: &Size) -> bool {
        ||| self.num_nodes < other.num_nodes
        ||| self.num_links < other.num_links
        ||| self.num_starts < other.num_starts
        ||| self.num_ends < other.num_ends
    }

    /// How this size compares to another, if they can be compared.
    pub open spec fn compared_to(&self, other: &Size) -> Option<Ordering> {
        if self.is_less_somewhere(other) {
            if other.is_less_somewhere(self) {
                None
            } else {
                Some(Ordering::Less)
            }
        } else {
            if other.is_less_somewhere(self) {
                Some(Ordering::Greater)
            } else {
                Some(Ordering::Equal)
            }
        }
    }

    fn any_less(&self, other: &Size) -> (less: bool)
        ensures
            less == self.is_less_somewhere(other),
    {
        self.num_nodes < other.num_nodes || self.num_links < other.num_links || self.num_starts
            < other.num_starts || self.num_ends < other.num_ends
    }
}

impl PartialOrd for Size {
    fn partial_cmp(&self, other: &Self) -> (result: Option<Ordering>) {
        match (self.any_less(other), other.any_less(self)) {
            (true, false) => Some(Ordering::Less),
            (false, true) => Some(Ordering::Greater),
            (false, false) => Some(Ordering::Equal),
            (true, true) => None,
        }
    }
}

impl vstd::std_specs::cmp::PartialOrdSpecImpl for Size {
    open spec fn obeys_partial_cmp_spec() -> bool {
        true
    }

    open spec fn partial_cmp_spec(&self, other: &Size) -> Option<Ordering> {
        self.compared_to(other)
    }
}

/// The number of links out of some nodes.
pub open spec fn num_links<S>(nodes: Seq<Node<S>>) -> nat
    decreases nodes.len(),
{
    if nodes.len() == 0 {
        0
    } else {
        num_links(nodes.drop_last()) + nodes.last().successors@.len()
    }
}

/// The size of a graph.
pub open spec fn size_of<S>(graph: Graph<S>) -> Size {
    Size {
        num_nodes: graph.nodes.keys().len() as usize,
        num_links: num_links(graph.nodes.values()) as u128,
        num_starts: graph.start_nodes@.len() as usize,
        num_ends: graph.end_nodes@.len() as usize,
    }
}

/// However many nodes there are, the number of links fits.
proof fn lemma_num_links_bounded<S>(nodes: Seq<Node<S>>)
    ensures
        num_links(nodes) <= nodes.len() * usize::MAX,
    decreases nodes.len(),
{
    if nodes.len() > 0 {
        lemma_num_links_bounded(nodes.drop_last());
        let node = nodes.last();
        assert(node.successors@.len() == node.successors.len());
        assert(nodes.len() * usize::MAX == (nodes.len() - 1) * usize::MAX + usize::MAX)
            by (nonlinear_arith);
    }
}

impl<S> From<&Graph<S>> for Size {
    fn from(graph: &Graph<S>) -> (size: Size) {
        let num_nodes: usize = graph.nodes.len();
        let mut num_links_so_far: u128 = 0;
        let mut i: usize = 0;
        while i < num_nodes
            invariant
                i <= num_nodes,
                num_nodes == graph.nodes.keys().len(),
                num_nodes == graph.nodes.values().len(),
                num_links_so_far == num_links(graph.nodes.values().take(i as int)),
            decreases num_nodes - i,
        {
            let ghost next = graph.nodes.values().take(i + 1);
            proof {
                assert(next.drop_last() =~= graph.nodes.values().take(i as int));
                lemma_num_links_bounded(next);
                assert(next.len() * usize::MAX <= usize::MAX * usize::MAX) by (nonlinear_arith)
                    requires
                        next.len() <= usize::MAX,
                ;
                assert(usize::MAX * usize::MAX <= u128::MAX) by (nonlinear_arith)
                    requires
                        0 <= usize::MAX <= 0xffff_ffff_ffff_ffff,
                ;
            }
            num_links_so_far = num_links_so_far + graph.nodes.value_at(i).successors.len() as u128;
            i = i + 1;
        }
        assert(graph.nodes.values().take(i as int) =~= graph.nodes.values());
        Size {
            num_nodes,
            num_links: num_links_so_far,
            num_starts: graph.start_nodes.len(),
            num_ends: graph.end_nodes.len(),
        }
    }
}

impl<S> vstd::std_specs::convert::FromSpecImpl<&Graph<S>> for Size {
    open spec fn obeys_from_spec() -> bool {
        true
    }

    open spec fn from_spec(graph: &Graph<S>) -> Size {
        size_of(*graph)
    }
}

/// Counting the links one node after the other adds up the number of links out of each.
proof fn lemma_num_links_is_sum<S>(nodes: Seq<Node<S>>)
    ensures
        num_links(nodes) == nodes.fold_left(
            0int,
            |sum: int, node: Node<S>| sum + node.successors@.len(),
        ),
    decreases nodes.len(),
{
    reveal(Seq::fold_left);
    if nodes.len() > 0 {
        lemma_num_links_is_sum(nodes.drop_last());
    }
}

/// A graph is as large as it has nodes, links out of all its nodes together, starts and ends.
pub proof fn law_size_counts_parts_of_graph<S>(graph: Graph<S>)
    ensures
        size_of(graph).num_nodes == graph.nodes.keys().len(),
        size_of(graph).num_links == graph.nodes.values().fold_left(
            0int,
            |sum: int, node: Node<S>| sum + node.successors@.len(),
        ),
        size_of(graph).num_starts == graph.start_nodes@.len(),
        size_of(graph).num_ends == graph.end_nodes@.len(),
{
    let nodes = graph.nodes.values();
    lemma_entries_fit(graph.nodes);
    lemma_num_links_is_sum(nodes);
    lemma_num_links_bounded(nodes);
    assert(nodes.len() * usize::MAX <= u128::MAX) by (nonlinear_arith)
        requires
            nodes.len() <= usize::MAX,
            0 <= usize::MAX <= 0xffff_ffff_ffff_ffff,
    ;
    assert(graph.start_nodes@.len() == graph.start_nodes.len());
    assert(graph.end_nodes@.len() == graph.end_nodes.len());
}

/// One size is smaller than another if and only if it is larger in no respect and smaller in some, and
/// larger the other way round.  They cannot be compared if and only if each is smaller than the other
/// in some respect.
pub proof fn law_sizes_compare_by_every_part(a: Size, b: Size)
    ensures
        a.compared_to(&b) == Some(Ordering::Less) <==> a != b && a.num_nodes <= b.num_nodes
            && a.num_links <= b.num_links && a.num_starts <= b.num_starts && a.num_ends
            <= b.num_ends,
        a.compared_to(&b) == Some(Ordering::Greater) <==> a != b && a.num_nodes >= b.num_nodes
            && a.num_links >= b.num_links && a.num_starts >= b.num_starts && a.num_ends
            >= b.num_ends,
        a.compared_to(&b) == Some(Ordering::Equal) <==> a == b,
        a.compared_to(&b) is None <==> {
            &&& {
                ||| a.num_nodes < b.num_nodes
                ||| a.num_links < b.num_links
                ||| a.num_starts < b.num_starts
                ||| a.num_ends < b.num_ends
            }
            &&& {
                ||| a.num_nodes > b.num_nodes
                ||| a.num_links > b.num_links
                ||| a.num_starts > b.num_starts
                ||| a.num_ends > b.num_ends
            }
        },
{
}

/// Two sizes compare as equal if and only if they are equal in every respect.
pub proof fn law_equal_sizes(a: Size, b: Size)
    ensures
        a.compared_to(&b) == Some(Ordering::Equal) <==> a == b,
{
}

/// One size is smaller than another if and only if the other is larger than it.
pub proof fn law_size_order_is_dual(a: Size, b: Size)
    ensures
        a.compared_to(&b) == Some(Ordering::Less) <==> b.compared_to(&a) == Some(Ordering::Greater),
        a.compared_to(&b) is None <==> b.compared_to(&a) is None,
{
}

/// What is smaller than a smaller size is smaller.
pub proof fn law_size_order_is_transitive(a: Size, b: Size, c: Size)
    requires
        a.compared_to(&b) == Some(Ordering::Less),
        b.compared_to(&c) == Some(Ordering::Less),
    ensures
        a.compared_to(&c) == Some(Ordering::Less),
{
}

} // verus!
