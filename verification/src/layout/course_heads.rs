//! Masks of course heads in which every call can be given a name.

use vstd::prelude::*;

use crate::primitives::Mask;
#[allow(unused_imports)]
use crate::primitives::{is_row, mask_matches, unspecified};
#[allow(unused_imports)]
use crate::select::{lemma_filter_ascends, lemma_filter_keeps_distinct};

verus! {

/// A way of labelling the calls in a set of courses.
pub struct CourseHeadMask {
    mask: Mask,
    /// The bell whose position determines the names of the calls in these courses.
    calling_bell: usize,
}

/// The masks that name a place for `bell` and between them match the rows that `mask` matches.
pub open spec fn masks_with_bell(mask: Seq<Option<usize>>, bell: usize) -> Seq<
    Seq<Option<usize>>,
> {
    if mask.contains(Some(bell)) {
        seq![mask]
    } else {
        unspecified(mask).map_values(|place: usize| mask.update(place as int, Some(bell)))
    }
}

impl CourseHeadMask {
    pub closed spec fn spec_mask(&self) -> Seq<Option<usize>> {
        self.mask@
    }

    pub closed spec fn spec_calling_bell(&self) -> usize {
        self.calling_bell
    }

    /// The mask names a place for the calling bell, so that every call at a given position in the
    /// course is given the same name.
    #[verifier::type_invariant]
    spec fn names_calling_bell(self) -> bool {
        self.mask@.contains(Some(self.calling_bell))
    }

    /// Expands a mask into masks which between them match the same rows, but which all name a
    /// place for the calling bell.  If two calls have the same position within a course, they are
    /// then given the same calling position.
    pub fn new(mask: Mask, calling_bell: usize) -> (masks: Vec<Self>)
        ensures
            masks@.map_values(|m: CourseHeadMask| m.spec_mask()) == masks_with_bell(
                mask@,
                calling_bell,
            ),
            forall|i: int|
                0 <= i < masks@.len() ==> (#[trigger] masks@[i]).spec_calling_bell()
                    == calling_bell,
    {
        let mut masks: Vec<CourseHeadMask> = Vec::new();
        if let Some(place) = mask.place_of(calling_bell) {
            assert(mask@[place as int] == Some(calling_bell));
            let ghost source = mask@;
            masks.push(CourseHeadMask { mask, calling_bell });
            assert(masks@.map_values(|m: CourseHeadMask| m.spec_mask()) =~= seq![source]);
            return masks;
        }
        let places = mask.unspecified_places();
        let stage: usize = mask.bells.len();
        let mut i: usize = 0;
        while i < places.len()
            invariant
                i <= places@.len(),
                places@ == unspecified(mask@),
                stage == mask@.len(),
                masks@.len() == i,
                forall|j: int|
                    0 <= j < i ==> {
                        &&& (#[trigger] masks@[j]).spec_mask() == mask@.update(
                            places@[j] as int,
                            Some(calling_bell),
                        )
                        &&& masks@[j].spec_calling_bell() == calling_bell
                    },
            decreases places@.len() - i,
        {
            proof {
                lemma_unspecified(mask@, i as int);
            }
            let named = mask.with_bell(calling_bell, places[i]);
            assert(named@[places@[i as int] as int] == Some(calling_bell));
            masks.push(CourseHeadMask { mask: named, calling_bell });
            i = i + 1;
        }
        assert(masks@.map_values(|m: CourseHeadMask| m.spec_mask()) =~= masks_with_bell(
            mask@,
            calling_bell,
        ));
        masks
    }

    pub fn mask(&self) -> (mask: &Mask)
        ensures
            mask@ == self.spec_mask(),
            mask@.contains(Some(self.spec_calling_bell())),
    {
        proof {
            use_type_invariant(self);
        }
        &self.mask
    }

    pub fn calling_bell(&self) -> (bell: usize)
        ensures
            bell == self.spec_calling_bell(),
    {
        self.calling_bell
    }
}

/// An unspecified place is a place of the mask at which it names no bell.
proof fn lemma_unspecified(mask: Seq<Option<usize>>, i: int)
    requires
        mask.len() <= usize::MAX,
        0 <= i < unspecified(mask).len(),
    ensures
        unspecified(mask)[i] < mask.len(),
        mask[unspecified(mask)[i] as int] is None,
{
    let all = Seq::new(mask.len(), |i: int| i as usize);
    let open = |place: usize| mask[place as int] is None;
    all.lemma_filter_pred(open, i);
    all.lemma_filter_contains_rev(open, unspecified(mask)[i]);
}

/// A place at which the mask names no bell is among its unspecified places.
proof fn lemma_unspecified_contains(mask: Seq<Option<usize>>, place: int)
    requires
        mask.len() <= usize::MAX,
        0 <= place < mask.len(),
        mask[place] is None,
    ensures
        unspecified(mask).contains(place as usize),
{
    let all = Seq::new(mask.len(), |i: int| i as usize);
    let open = |place: usize| mask[place as int] is None;
    assert(all[place] == place as usize);
    all.lemma_filter_contains(open, place);
}

/// A row that misses no bell has every bell of its stage at some place.
proof fn lemma_row_has_bell(row: Seq<usize>, bell: usize)
    requires
        is_row(row),
        bell < row.len(),
    ensures
        row.contains(bell),
{
    let bells = row.map_values(|b: usize| b as int);
    assert(bells.no_duplicates());
    bells.unique_seq_to_set();
    let stage = vstd::set_lib::set_int_range(0, row.len() as int);
    vstd::set_lib::lemma_int_range(0, row.len() as int);
    assert(bells.to_set().subset_of(stage));
    vstd::seq_lib::seq_to_set_is_finite(bells);
    vstd::set_lib::lemma_subset_equality(bells.to_set(), stage);
    assert(bells.to_set().contains(bell as int));
    let i = choose|i: int| 0 <= i < bells.len() && bells[i] == bell as int;
    assert(row[i] == bell);
}

/// Expanding a mask for a calling bell of its stage changes nothing about which rows are matched:
/// a row matches the mask if and only if it matches one of the masks it is expanded into, and it
/// then matches exactly one of them.
pub proof fn law_expansion_matches_same_rows(
    mask: Seq<Option<usize>>,
    bell: usize,
    row: Seq<usize>,
)
    requires
        mask.len() <= usize::MAX,
        bell < mask.len(),
        is_row(row),
    ensures
        mask_matches(mask, row) <==> exists|i: int|
            0 <= i < masks_with_bell(mask, bell).len() && mask_matches(
                #[trigger] masks_with_bell(mask, bell)[i],
                row,
            ),
        forall|i: int, j: int|
            0 <= i < masks_with_bell(mask, bell).len() && 0 <= j < masks_with_bell(mask, bell).len()
                && mask_matches(#[trigger] masks_with_bell(mask, bell)[i], row) && mask_matches(
                #[trigger] masks_with_bell(mask, bell)[j],
                row,
            ) ==> i == j,
{
    let masks = masks_with_bell(mask, bell);
    if mask.contains(Some(bell)) {
        assert(masks[0] == mask);
    } else {
        if mask_matches(mask, row) {
            lemma_row_has_bell(row, bell);
            let place = row.index_of(bell);
            assert(mask[place] is None) by {
                if mask[place] is Some {
                    assert(mask[place] == Some(bell));
                }
            }
            lemma_unspecified_contains(mask, place);
            let i = unspecified(mask).index_of(place as usize);
            assert(masks[i] == mask.update(place, Some(bell)));
            assert(mask_matches(masks[i], row));
        }
        if exists|i: int| 0 <= i < masks.len() && mask_matches(#[trigger] masks[i], row) {
            let i = choose|i: int| 0 <= i < masks.len() && mask_matches(#[trigger] masks[i], row);
            lemma_unspecified(mask, i);
            let place = unspecified(mask)[i] as int;
            assert forall|j: int| 0 <= j < mask.len() && #[trigger] mask[j] is Some implies mask[j]
                == Some(row[j]) by {
                assert(masks[i][j] == mask[j]);
            }
        }
        assert forall|i: int, j: int|
            0 <= i < masks.len() && 0 <= j < masks.len() && mask_matches(#[trigger] masks[i], row)
                && mask_matches(#[trigger] masks[j], row) implies i == j by {
            lemma_unspecified(mask, i);
            lemma_unspecified(mask, j);
            let p = unspecified(mask)[i];
            let q = unspecified(mask)[j];
            assert(masks[i][p as int] == Some(bell));
            assert(masks[j][q as int] == Some(bell));
            assert(row[p as int] == bell && row[q as int] == bell);
            let places = Seq::new(mask.len(), |i: int| i as usize);
            lemma_filter_keeps_distinct(places, |place: usize| mask[place as int] is None);
        }
    }
}

/// Every mask that a mask is expanded into names exactly one place for the calling bell, provided
/// that the mask itself names at most one.
pub proof fn law_expansion_names_calling_bell(mask: Seq<Option<usize>>, bell: usize, i: int)
    requires
        mask.len() <= usize::MAX,
        0 <= i < masks_with_bell(mask, bell).len(),
        forall|p: int, q: int|
            0 <= p < q < mask.len() && #[trigger] mask[p] == Some(bell) ==> #[trigger] mask[q]
                != Some(bell),
    ensures
        masks_with_bell(mask, bell)[i].contains(Some(bell)),
        forall|p: int, q: int|
            0 <= p < q < mask.len() && #[trigger] masks_with_bell(mask, bell)[i][p] == Some(bell)
                ==> #[trigger] masks_with_bell(mask, bell)[i][q] != Some(bell),
{
    let named = masks_with_bell(mask, bell)[i];
    if !mask.contains(Some(bell)) {
        lemma_unspecified(mask, i);
        let place = unspecified(mask)[i] as int;
        assert(named[place] == Some(bell));
        assert forall|p: int, q: int|
            0 <= p < q < mask.len() && #[trigger] named[p] == Some(bell) implies #[trigger] named[q]
            != Some(bell) by {
            if named[q] == Some(bell) {
                assert(mask[p] != Some(bell) && mask[q] != Some(bell));
            }
        }
    }
}

/// A mask that names a place for the calling bell is expanded into itself.  Any other mask is expanded
/// into one mask for each place that it leaves open, from the front to the back, which names the calling
/// bell there and is otherwise the same.  These are the places.
pub proof fn law_expansion_fills_open_places(mask: Seq<Option<usize>>, bell: usize) -> (places: Seq<int>)
    requires
        mask.len() <= usize::MAX,
    ensures
        mask.contains(Some(bell)) ==> masks_with_bell(mask, bell) == seq![mask],
        !mask.contains(Some(bell)) ==> {
            let masks = masks_with_bell(mask, bell);
            &&& masks.len() == places.len()
            &&& forall|i: int|
                0 <= i < places.len() ==> {
                    &&& 0 <= #[trigger] places[i] < mask.len()
                    &&& mask[places[i]] is None
                    &&& masks[i].len() == mask.len()
                    &&& masks[i][places[i]] == Some(bell)
                    &&& forall|place: int|
                        0 <= place < mask.len() && place != places[i]
                            ==> #[trigger] masks[i][place] == mask[place]
                }
            &&& forall|i: int, j: int|
                0 <= i < j < places.len() ==> #[trigger] places[i] < #[trigger] places[j]
            &&& forall|place: int|
                0 <= place < mask.len() && (#[trigger] mask[place]) is None ==> places.contains(
                    place,
                )
        },
{
    let open = unspecified(mask);
    let places = open.map_values(|place: usize| place as int);
    let all = Seq::new(mask.len(), |i: int| i as usize);
    lemma_filter_ascends(all, |place: usize| mask[place as int] is None);
    assert forall|i: int| 0 <= i < places.len() implies 0 <= #[trigger] places[i] < mask.len()
        && mask[places[i]] is None by {
        lemma_unspecified(mask, i);
    }
    assert forall|place: int| 0 <= place < mask.len() && (
    #[trigger] mask[place]) is None implies places.contains(place) by {
        lemma_unspecified_contains(mask, place);
        let i = open.index_of(place as usize);
        assert(places[i] == place);
    }
    places
}

} // verus!
