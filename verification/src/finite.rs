//! There are only finitely many nodes of any stage.

use vstd::prelude::*;
#[allow(unused_imports)]
use vstd::set_lib::set_int_range;

#[allow(unused_imports)]
use crate::layout::{NodeIdView, RowIdx};
#[allow(unused_imports)]
use crate::node_range::IdView;

verus! {

/// There are only finitely many indices.
proof fn lemma_usizes_finite()
    ensures
        Set::new(|x: usize| true).finite(),
{
    let ints = set_int_range(0, usize::MAX + 1);
    vstd::set_lib::lemma_int_range(0, usize::MAX + 1);
    let f = |x: int| x as usize;
    ints.lemma_map_finite(f);
    assert forall|x: usize| #[trigger] ints.map(f).contains(x) by {
        assert(ints.contains(x as int) && f(x as int) == x);
    }
    assert(ints.map(f) =~= Set::new(|x: usize| true));
}

/// There are only finitely many sequences of a given length.
proof fn lemma_seqs_finite(len: nat)
    ensures
        Set::new(|s: Seq<usize>| s.len() == len).finite(),
    decreases len,
{
    let seqs = Set::new(|s: Seq<usize>| s.len() == len);
    if len == 0 {
        assert(seqs =~= Set::empty().insert(Seq::<usize>::empty())) by {
            assert forall|s: Seq<usize>| s.len() == 0 implies s == Seq::<usize>::empty() by {
                assert(s =~= Seq::<usize>::empty());
            }
        }
    } else {
        let shorter = Set::new(|s: Seq<usize>| s.len() == (len - 1) as nat);
        let elements = Set::new(|x: usize| true);
        lemma_seqs_finite((len - 1) as nat);
        lemma_usizes_finite();
        let longer = |s: Seq<usize>| elements.map(|x: usize| s.push(x));
        let front = |s: Seq<usize>| s.drop_last();
        assert forall|s: Seq<usize>| shorter.contains(s) implies (#[trigger] longer(s)).finite() by {
            elements.lemma_map_finite(|x: usize| s.push(x));
        }
        shorter.lemma_map_flatten_by_finite(longer, front);
        assert(seqs =~= shorter.map_flatten_by(longer, front)) by {
            assert forall|s: Seq<usize>| seqs.contains(s) implies shorter.map_flatten_by(
                longer,
                front,
            ).contains(s) by {
                let f = |x: usize| front(s).push(x);
                assert(elements.contains(s.last()));
                assert(f(s.last()) =~= s);
                assert(elements.map(f).contains(s));
                assert(longer(front(s)) == elements.map(f));
            }
            assert forall|s: Seq<usize>| shorter.map_flatten_by(longer, front).contains(
                s,
            ) implies seqs.contains(s) by {
                let f = |x: usize| front(s).push(x);
                assert(longer(front(s)) == elements.map(f));
                let x = choose|x: usize| elements.contains(x) && f(x) == s;
                assert(front(s).len() == len - 1);
            }
        }
    }
}

/// Whether the course head of a node, if it has one, has a given number of bells.
pub open spec fn has_stage(id: IdView, num_bells: nat) -> bool {
    id matches IdView::Standard(id) ==> id.course_head.len() == num_bells
}

/// There are only finitely many nodes whose course heads have a given number of bells.
pub proof fn lemma_ids_finite(num_bells: nat)
    ensures
        Set::new(|id: IdView| has_stage(id, num_bells)).finite(),
{
    let ids = Set::new(|id: IdView| has_stage(id, num_bells));
    let seqs = Set::new(|s: Seq<usize>| s.len() == num_bells + 3);
    lemma_seqs_finite(num_bells + 3);
    let decode = |s: Seq<usize>|
        IdView::Standard(
            NodeIdView {
                course_head: s.skip(3),
                row_idx: RowIdx { block: s[0], row: s[1] },
                is_start: s[2] == 1,
            },
        );
    seqs.lemma_map_finite(decode);
    assert forall|id: IdView| #[trigger] ids.contains(id) implies seqs.map(decode).insert(
        IdView::ZeroLengthEnd,
    ).contains(id) by {
        if let IdView::Standard(std_id) = id {
            let flag: usize = if std_id.is_start {
                1
            } else {
                0
            };
            let s = seq![std_id.row_idx.block, std_id.row_idx.row, flag] + std_id.course_head;
            assert(s.skip(3) =~= std_id.course_head);
            assert(seqs.contains(s));
            assert(decode(s) == id);
        }
    }
    vstd::set_lib::lemma_set_subset_finite(seqs.map(decode).insert(IdView::ZeroLengthEnd), ids);
}

} // verus!
