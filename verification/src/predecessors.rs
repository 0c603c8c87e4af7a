//! The links of a graph, followed backwards.

use vstd::prelude::*;

use crate::graph::{Link, Node};
#[allow(unused_imports)]
use crate::graph::{link_views, LinkView, NodeView};
use crate::keyed::KeyedMap;
#[allow(unused_imports)]
use crate::keyed::lemma_index_of;
use crate::node_range::{NodeId, Rotation};
#[allow(unused_imports)]
use crate::node_range::IdView;
#[allow(unused_imports)]
use crate::select::lemma_contains_concat;

verus! {

/// A link of the node `from`, followed backwards.  Passing backwards over a link gives it the
/// opposite rotation.
pub open spec fn backwards(from: IdView, link: LinkView, num_parts: Rotation) -> LinkView {
    LinkView {
        id: from,
        source_idx: link.source_idx,
        rotation: (num_parts - link.rotation) as usize,
    }
}

/// The links of the node `from` that lead to the node `to`, followed backwards.
pub open spec fn links_back_to(
    from: IdView,
    links: Seq<LinkView>,
    to: IdView,
    num_parts: Rotation,
) -> Seq<LinkView>
    decreases links.len(),
{
    if links.len() == 0 {
        Seq::empty()
    } else {
        let before = links_back_to(from, links.drop_last(), to, num_parts);
        if links.last().id == to {
            before.push(backwards(from, links.last(), num_parts))
        } else {
            before
        }
    }
}

/// The links of all the given nodes that lead to the node `to`, followed backwards.
pub open spec fn links_back(
    ids: Seq<IdView>,
    links: Seq<Seq<LinkView>>,
    to: IdView,
    num_parts: Rotation,
) -> Seq<LinkView>
    decreases ids.len(),
{
    if ids.len() == 0 {
        Seq::empty()
    } else {
        links_back(ids.drop_last(), links.drop_last(), to, num_parts) + links_back_to(
            ids.last(),
            links.last(),
            to,
            num_parts,
        )
    }
}

/// The links out of each of some nodes.
pub open spec fn successors_of<S>(nodes: Seq<Node<S>>) -> Seq<Seq<LinkView>> {
    nodes.map_values(|node: Node<S>| node@.successors)
}

/// Whether every link between two of the nodes has a rotation of less than `num_parts`.
pub open spec fn rotations_fit(
    ids: Seq<IdView>,
    links: Seq<Seq<LinkView>>,
    num_parts: Rotation,
) -> bool {
    forall|i: int, k: int|
        0 <= i < ids.len() && 0 <= k < links[i].len() && ids.contains(
            (#[trigger] links[i][k]).id,
        ) ==> links[i][k].rotation < num_parts
}

/// Adds a predecessor to a node for every link that leads to it from a node of the graph.
pub fn set_predecessors<S>(nodes: &mut KeyedMap<NodeId, Node<S>>, num_parts: Rotation)
    requires
        rotations_fit(old(nodes).keys(), successors_of(old(nodes).values()), num_parts),
    ensures
        final(nodes).keys() == old(nodes).keys(),
        final(nodes).values().len() == old(nodes).values().len(),
        forall|j: int|
            0 <= j < old(nodes).keys().len() ==> (#[trigger] final(nodes).values()[j])@ == (
            NodeView {
                predecessors: old(nodes).values()[j]@.predecessors + links_back(
                    old(nodes).keys(),
                    successors_of(old(nodes).values()),
                    old(nodes).keys()[j],
                    num_parts,
                ),
                ..old(nodes).values()[j]@
            }),
{
    let ghost before = *nodes;
    let ghost ids = before.keys();
    let ghost links = successors_of(before.values());
    let len: usize = nodes.len();
    let mut i: usize = 0;
    while i < len
        invariant
            i <= len,
            len == ids.len(),
            ids.no_duplicates(),
            before.values().len() == len,
            nodes.values().len() == len,
            nodes.keys() == ids,
            links == successors_of(before.values()),
            rotations_fit(ids, links, num_parts),
            forall|j: int|
                0 <= j < len ==> (#[trigger] nodes.values()[j])@ =~= (NodeView {
                    predecessors: before.values()[j]@.predecessors + links_back(
                        ids.take(i as int),
                        links.take(i as int),
                        ids[j],
                        num_parts,
                    ),
                    ..before.values()[j]@
                }),
        decreases len - i,
    {
        let ghost ids_so_far = ids.take(i as int);
        let ghost links_so_far = links.take(i as int);
        let ghost from = ids[i as int];
        let ghost out = links[i as int];
        let num_successors: usize = nodes.value_at(i).successors.len();
        proof {
            assert(nodes.values()[i as int]@.successors == before.values()[i as int]@.successors);
            assert(num_successors == out.len());
        }
        let mut k: usize = 0;
        while k < num_successors
            invariant
                i < len,
                k <= num_successors,
                num_successors == out.len(),
                len == ids.len(),
                ids.no_duplicates(),
                from == ids[i as int],
                out == links[i as int],
                before.values().len() == len,
                nodes.values().len() == len,
                nodes.keys() == ids,
                links == successors_of(before.values()),
                rotations_fit(ids, links, num_parts),
                forall|j: int|
                    0 <= j < len ==> (#[trigger] nodes.values()[j])@ =~= (NodeView {
                        predecessors: before.values()[j]@.predecessors + links_back(
                            ids_so_far,
                            links_so_far,
                            ids[j],
                            num_parts,
                        ) + links_back_to(from, out.take(k as int), ids[j], num_parts),
                        ..before.values()[j]@
                    }),
            decreases num_successors - k,
        {
            let ghost now = nodes.values();
            proof {
                assert(now[i as int]@.successors == before.values()[i as int]@.successors);
                assert(now[i as int]@.successors == out);
            }
            let link = nodes.value_at(i).successors[k].clone();
            let ghost next = out.take(k + 1);
            proof {
                assert(link@ == out[k as int]);
                assert(next.drop_last() =~= out.take(k as int));
                assert(next.last() == link@);
            }
            if let Some(position) = nodes.position(&link.id) {
                assert(ids.contains(links[i as int][k as int].id));
                let id = nodes.key_at(i).clone();
                let back = Link::new(id, link.source_idx, num_parts - link.rotation);
                let ghost old_node = now[position as int];
                nodes.value_at_mut(position).predecessors.push(back);
                proof {
                    let new_node = nodes.values()[position as int];
                    assert(back@ == backwards(from, link@, num_parts));
                    assert(link_views(new_node.predecessors@) =~= link_views(
                        old_node.predecessors@,
                    ).push(back@));
                    assert(new_node@ =~= (NodeView {
                        predecessors: old_node@.predecessors.push(back@),
                        ..old_node@
                    }));
                }
            }
            proof {
                assert forall|j: int| 0 <= j < len implies (#[trigger] nodes.values()[j])@ =~= (
                NodeView {
                    predecessors: before.values()[j]@.predecessors + links_back(
                        ids_so_far,
                        links_so_far,
                        ids[j],
                        num_parts,
                    ) + links_back_to(from, next, ids[j], num_parts),
                    ..before.values()[j]@
                }) by {
                    assert(now[j]@ =~= (NodeView {
                        predecessors: before.values()[j]@.predecessors + links_back(
                            ids_so_far,
                            links_so_far,
                            ids[j],
                            num_parts,
                        ) + links_back_to(from, out.take(k as int), ids[j], num_parts),
                        ..before.values()[j]@
                    }));
                    if ids[j] == link.id@ {
                        assert(ids.contains(ids[j]));
                    } else {
                        assert(nodes.values()[j] == now[j]);
                    }
                }
            }
            k = k + 1;
        }
        proof {
            assert(out.take(k as int) =~= out);
            let ids_next = ids.take(i + 1);
            let links_next = links.take(i + 1);
            assert(ids_next.drop_last() =~= ids_so_far);
            assert(links_next.drop_last() =~= links_so_far);
            assert forall|j: int| 0 <= j < len implies (#[trigger] nodes.values()[j])@ =~= (
            NodeView {
                predecessors: before.values()[j]@.predecessors + links_back(
                    ids_next,
                    links_next,
                    ids[j],
                    num_parts,
                ),
                ..before.values()[j]@
            }) by {
                assert(before.values()[j]@.predecessors + links_back(
                    ids_so_far,
                    links_so_far,
                    ids[j],
                    num_parts,
                ) + links_back_to(from, out, ids[j], num_parts)
                    =~= before.values()[j]@.predecessors + links_back(
                    ids_next,
                    links_next,
                    ids[j],
                    num_parts,
                ));
            }
        }
        i = i + 1;
    }
    proof {
        assert(ids.take(i as int) =~= ids);
        assert(links.take(i as int) =~= links);
    }
}

/// Following links backwards mirrors following them forwards: the links back from a node are
/// exactly those of the given nodes that lead to it, each with the opposite rotation.
pub proof fn law_links_back_mirror_links(
    ids: Seq<IdView>,
    links: Seq<Seq<LinkView>>,
    to: IdView,
    num_parts: Rotation,
    back: LinkView,
)
    requires
        ids.len() == links.len(),
    ensures
        links_back(ids, links, to, num_parts).contains(back) <==> exists|i: int, k: int|
            0 <= i < ids.len() && 0 <= k < links[i].len() && (#[trigger] links[i][k]).id == to
                && back == backwards(ids[i], links[i][k], num_parts),
    decreases ids.len(),
{
    if ids.len() > 0 {
        let earlier_ids = ids.drop_last();
        let earlier_links = links.drop_last();
        let n = ids.len() - 1;
        law_links_back_mirror_links(earlier_ids, earlier_links, to, num_parts, back);
        let earlier = links_back(earlier_ids, earlier_links, to, num_parts);
        let last = links_back_to(ids.last(), links.last(), to, num_parts);
        lemma_contains_concat(earlier, last, back);
        lemma_links_back_to(ids.last(), links.last(), to, num_parts, back);
        assert forall|i: int| 0 <= i < n implies earlier_ids[i] == ids[i]
            && #[trigger] earlier_links[i] == links[i] by {}
        if earlier.contains(back) {
            let (i, k) = choose|i: int, k: int|
                0 <= i < earlier_ids.len() && 0 <= k < earlier_links[i].len() && (
                #[trigger] earlier_links[i][k]).id == to && back == backwards(
                    earlier_ids[i],
                    earlier_links[i][k],
                    num_parts,
                );
            assert(links[i][k].id == to);
        }
        if last.contains(back) {
            let k = choose|k: int|
                0 <= k < links.last().len() && (#[trigger] links.last()[k]).id == to && back
                    == backwards(ids.last(), links.last()[k], num_parts);
            assert(links[n][k].id == to);
        }
        if exists|i: int, k: int|
            0 <= i < ids.len() && 0 <= k < links[i].len() && (#[trigger] links[i][k]).id == to
                && back == backwards(ids[i], links[i][k], num_parts) {
            let (i, k) = choose|i: int, k: int|
                0 <= i < ids.len() && 0 <= k < links[i].len() && (#[trigger] links[i][k]).id == to
                    && back == backwards(ids[i], links[i][k], num_parts);
            if i == n {
                assert(links.last()[k].id == to);
            } else {
                assert(earlier_links[i][k].id == to);
            }
        }
    }
}

proof fn lemma_links_back_to(
    from: IdView,
    links: Seq<LinkView>,
    to: IdView,
    num_parts: Rotation,
    back: LinkView,
)
    ensures
        links_back_to(from, links, to, num_parts).contains(back) <==> exists|k: int|
            0 <= k < links.len() && (#[trigger] links[k]).id == to && back == backwards(
                from,
                links[k],
                num_parts,
            ),
    decreases links.len(),
{
    if links.len() > 0 {
        let earlier = links.drop_last();
        let n = links.len() - 1;
        lemma_links_back_to(from, earlier, to, num_parts, back);
        let found = links_back_to(from, links, to, num_parts);
        let found_earlier = links_back_to(from, earlier, to, num_parts);
        assert forall|k: int| 0 <= k < n implies earlier[k] == #[trigger] links[k] by {}
        if found_earlier.contains(back) {
            assert(found[found_earlier.index_of(back)] == back);
            let k = choose|k: int|
                0 <= k < earlier.len() && (#[trigger] earlier[k]).id == to && back == backwards(
                    from,
                    earlier[k],
                    num_parts,
                );
            assert(links[k].id == to);
        } else if found.contains(back) {
            let i = found.index_of(back);
            if i < found_earlier.len() {
                assert(found_earlier[i] == back);
            }
            assert(links[n].id == to);
        }
        if links[n].id == to && back == backwards(from, links[n], num_parts) {
            assert(found[found_earlier.len() as int] == back);
        }
    }
}

/// The links back from one node to another stand one for one, and in the same order, for the links that
/// lead the other way.  Each is the same link of the layout, and going there and back over it passes
/// through all the parts.
pub proof fn law_links_back_oppose_links(
    from: IdView,
    links: Seq<LinkView>,
    to: IdView,
    num_parts: Rotation,
)
    requires
        forall|k: int|
            0 <= k < links.len() && (#[trigger] links[k]).id == to ==> links[k].rotation
                <= num_parts,
    ensures
        ({
            let back = links_back_to(from, links, to, num_parts);
            let forth = links.filter(|link: LinkView| link.id == to);
            &&& back.len() == forth.len()
            &&& forall|i: int|
                0 <= i < back.len() ==> {
                    &&& (#[trigger] back[i]).id == from
                    &&& back[i].source_idx == forth[i].source_idx
                    &&& back[i].rotation + forth[i].rotation == num_parts
                }
        }),
    decreases links.len(),
{
    reveal(Seq::filter);
    let leads_there = |link: LinkView| link.id == to;
    if links.len() > 0 {
        let earlier = links.drop_last();
        assert forall|k: int| 0 <= k < earlier.len() && (#[trigger] earlier[k]).id == to implies
            earlier[k].rotation <= num_parts by {
            assert(links[k] == earlier[k]);
        }
        law_links_back_oppose_links(from, earlier, to, num_parts);
        let last = links.last();
        assert(links[links.len() - 1] == last);
        let back = links_back_to(from, links, to, num_parts);
        let forth = links.filter(leads_there);
        let back_earlier = links_back_to(from, earlier, to, num_parts);
        let forth_earlier = earlier.filter(leads_there);
        assert forall|i: int| 0 <= i < back.len() implies (#[trigger] back[i]).id == from
            && back[i].source_idx == forth[i].source_idx && back[i].rotation + forth[i].rotation
            == num_parts by {
            if i < back_earlier.len() {
                assert(back[i] == back_earlier[i] && forth[i] == forth_earlier[i]);
            }
        }
    }
}

/// The links back to one node all come from that node.
proof fn lemma_links_back_to_come_from(
    from: IdView,
    links: Seq<LinkView>,
    to: IdView,
    num_parts: Rotation,
    other: IdView,
)
    ensures
        links_back_to(from, links, to, num_parts).filter(|back: LinkView| back.id == other)
            == if from == other {
            links_back_to(from, links, to, num_parts)
        } else {
            Seq::empty()
        },
    decreases links.len(),
{
    let comes_from_other = |back: LinkView| back.id == other;
    if links.len() == 0 {
        reveal(Seq::filter);
    } else {
        let before = links_back_to(from, links.drop_last(), to, num_parts);
        lemma_links_back_to_come_from(from, links.drop_last(), to, num_parts, other);
        before.lemma_filter_push(backwards(from, links.last(), num_parts), comes_from_other);
    }
}

/// Of the links back from a node, those to one of the given nodes are the links of that node that
/// lead here, one for each and in the same order.  There are none to any other node.
pub proof fn law_links_back_come_one_for_one(
    ids: Seq<IdView>,
    links: Seq<Seq<LinkView>>,
    to: IdView,
    num_parts: Rotation,
    from: IdView,
)
    requires
        ids.len() == links.len(),
        ids.no_duplicates(),
    ensures
        links_back(ids, links, to, num_parts).filter(|back: LinkView| back.id == from)
            == if ids.contains(from) {
            links_back_to(from, links[ids.index_of(from)], to, num_parts)
        } else {
            Seq::empty()
        },
    decreases ids.len(),
{
    let comes_from = |back: LinkView| back.id == from;
    if ids.len() == 0 {
        reveal(Seq::filter);
    } else {
        let earlier_ids = ids.drop_last();
        let earlier_links = links.drop_last();
        let earlier = links_back(earlier_ids, earlier_links, to, num_parts);
        let last = links_back_to(ids.last(), links.last(), to, num_parts);
        law_links_back_come_one_for_one(earlier_ids, earlier_links, to, num_parts, from);
        lemma_links_back_to_come_from(ids.last(), links.last(), to, num_parts, from);
        Seq::filter_distributes_over_add(earlier, last, comes_from);
        lemma_index_of(ids);
        lemma_index_of(earlier_ids);
        if earlier_ids.contains(from) {
            let i = earlier_ids.index_of(from);
            assert(ids[i] == from);
            assert(ids[ids.len() - 1] == ids.last());
            assert(earlier.filter(comes_from) + Seq::empty() =~= earlier.filter(comes_from));
        } else if ids.last() == from {
            assert(ids[ids.len() - 1] == from);
            assert(Seq::empty() + last =~= last);
        } else {
            if ids.contains(from) {
                assert(earlier_ids[ids.index_of(from)] == from);
            }
            assert(Seq::<LinkView>::empty() + Seq::empty() =~= Seq::empty());
        }
    }
}

} // verus!
