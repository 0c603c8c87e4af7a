//! The values of change ringing that layouts and graphs are made of: stages, rows, course head
//! masks, place notation and blocks of rows.
//!
//! Bells and places are counted from zero, so the treble is bell `0` and leading is place `0`.

use vstd::prelude::*;
#[allow(unused_imports)]
use vstd::relations::{sorted_by, total_ordering};

#[allow(unused_imports)]
use crate::select::lemma_filter_ascends;
#[allow(unused_imports)]
use crate::text::decimal;

verus! {

/// A number of bells, which is at least one.
#[derive(Clone, Copy)]
pub struct Stage {
    num_bells: usize,
}

impl View for Stage {
    type V = nat;

    closed spec fn view(&self) -> nat {
        self.num_bells as nat
    }
}

impl Stage {
    #[verifier::type_invariant]
    spec fn has_bells(self) -> bool {
        self.num_bells > 0
    }

    /// The stage with a given number of bells.
    pub fn new(num_bells: usize) -> (stage: Self)
        requires
            num_bells > 0,
        ensures
            stage@ == num_bells,
    {
        Stage { num_bells }
    }

    /// The number of bells in this stage.
    pub fn num_bells(&self) -> (num_bells: usize)
        ensures
            num_bells == self@,
            num_bells > 0,
    {
        proof {
            use_type_invariant(self);
        }
        self.num_bells
    }

    /// Whether this stage has an even number of bells.
    pub fn is_even(&self) -> (even: bool)
        ensures
            even == (self@ % 2 == 0),
    {
        self.num_bells % 2 == 0
    }
}

/// Whether `bells` holds each of the bells `0..bells.len()` once, and at least one bell.
pub open spec fn is_row(bells: Seq<usize>) -> bool {
    &&& bells.len() > 0
    &&& forall|i: int| 0 <= i < bells.len() ==> #[trigger] bells[i] < bells.len()
    &&& bells.no_duplicates()
}

/// `lhs` permuted by `rhs`: the bell at a place of the product is the bell of `lhs` at the place
/// that `rhs` names there.
pub open spec fn product(lhs: Seq<usize>, rhs: Seq<usize>) -> Seq<usize> {
    Seq::new(rhs.len(), |i: int| lhs[rhs[i] as int])
}

/// The bells of a stage, each at its own place.
pub open spec fn rounds(num_bells: nat) -> Seq<usize> {
    Seq::new(num_bells, |i: int| i as usize)
}

/// The names of the first bells, one character each.
pub open spec fn bell_names() -> Seq<char> {
    "1234567890ETABCDFGHJKLMNPQRSUVWYZ"@
}

/// The name of a bell.  A bell beyond those with names has its number in angle brackets.
pub open spec fn bell_name(bell: usize) -> Seq<char> {
    if bell < bell_names().len() {
        seq![bell_names()[bell as int]]
    } else {
        "<"@ + decimal((bell + 1) as nat) + ">"@
    }
}

/// The text by which the row of these bells is displayed: the names of its bells.
pub open spec fn row_text(bells: Seq<usize>) -> Seq<char>
    decreases bells.len(),
{
    if bells.len() == 0 {
        Seq::empty()
    } else {
        row_text(bells.drop_last()) + bell_name(bells.last())
    }
}

/// Multiplies two rows with `bellframe`'s `*` on rows.
///
/// It is relied on that the product has, at each place, the bell of `lhs` at the index of the bell
/// that `rhs` has there.  Rows of different stages make `*` panic, and so are left out.
#[verifier::external_body]
fn multiply(lhs: &Vec<usize>, rhs: &Vec<usize>) -> (bells: Vec<usize>)
    requires
        is_row(lhs@),
        is_row(rhs@),
        lhs@.len() == rhs@.len(),
    ensures
        bells@ == product(lhs@, rhs@),
{
    let to_bell = |index: &usize| bellframe::Bell::from_index(*index);
    let lhs_row = bellframe::RowBuf::from_bell_iter(lhs.iter().map(to_bell)).unwrap();
    let rhs_row = bellframe::RowBuf::from_bell_iter(rhs.iter().map(to_bell)).unwrap();
    (&lhs_row * &rhs_row).bell_iter().map(|bell| bell.index()).collect()
}

/// Displays a row with `bellframe`'s `Display` for `RowBuf`.
///
/// It is relied on that the text is made of the names of the bells, one after the other.
#[verifier::external_body]
fn display(bells: &Vec<usize>) -> (text: String)
    requires
        is_row(bells@),
    ensures
        text@ == row_text(bells@),
{
    let to_bell = |index: &usize| bellframe::Bell::from_index(*index);
    bellframe::RowBuf::from_bell_iter(bells.iter().map(to_bell)).unwrap().to_string()
}

/// A permutation of the bells of some stage.
#[derive(PartialEq, Eq, Hash)]
pub struct Row {
    bells: Vec<usize>,
}

impl View for Row {
    type V = Seq<usize>;

    closed spec fn view(&self) -> Seq<usize> {
        self.bells@
    }
}

impl Clone for Row {
    fn clone(&self) -> (row: Self)
        ensures
            row@ == self@,
    {
        proof {
            use_type_invariant(self);
        }
        let bells = copy_bells(&self.bells);
        Row { bells }
    }
}

fn copy_bells(bells: &Vec<usize>) -> (copy: Vec<usize>)
    ensures
        copy@ == bells@,
{
    let copy = bells.clone();
    assert(copy@ =~= bells@);
    copy
}

impl Row {
    #[verifier::type_invariant]
    spec fn is_permutation(self) -> bool {
        is_row(self.bells@)
    }

    /// The row of these bells, provided that each bell of its stage occurs in it exactly once.
    pub fn new(bells: Vec<usize>) -> (row: Option<Self>)
        ensures
            row is Some <==> is_row(bells@),
            row is Some <==> bells@.len() > 0 && (forall|place: int|
                0 <= place < bells@.len() ==> #[trigger] bells@[place] < bells@.len()) && (forall|
                p: int,
                q: int,
            |
                0 <= p < q < bells@.len() ==> #[trigger] bells@[p] != #[trigger] bells@[q]),
            row matches Some(row) ==> row@ == bells@,
    {
        let len: usize = bells.len();
        if len == 0 {
            return None;
        }
        let mut seen: Vec<bool> = Vec::new();
        let mut i: usize = 0;
        while i < len
            invariant
                i <= len,
                seen@.len() == i,
                forall|b: int| 0 <= b < i ==> !#[trigger] seen@[b],
            decreases len - i,
        {
            seen.push(false);
            i = i + 1;
        }
        let mut place: usize = 0;
        while place < len
            invariant
                place <= len,
                len == bells@.len(),
                seen@.len() == len,
                forall|p: int| 0 <= p < place ==> #[trigger] bells@[p] < len,
                forall|p: int| 0 <= p < place ==> seen@[#[trigger] bells@[p] as int],
                forall|b: int|
                    0 <= b < len && #[trigger] seen@[b] ==> exists|p: int|
                        0 <= p < place && #[trigger] bells@[p] == b,
                forall|p: int, q: int|
                    0 <= p < q < place ==> #[trigger] bells@[p] != #[trigger] bells@[q],
            decreases len - place,
        {
            let bell: usize = bells[place];
            if bell >= len {
                assert(bells@[place as int] >= bells@.len());
                return None;
            }
            if seen[bell] {
                proof {
                    let p = choose|p: int| 0 <= p < place && #[trigger] bells@[p] == bell;
                    assert(bells@[p] == bells@[place as int]);
                }
                return None;
            }
            seen.set(bell, true);
            assert(seen@[bell as int] && bells@[place as int] == bell);
            place = place + 1;
        }
        assert(is_row(bells@));
        Some(Row { bells })
    }

    /// The row with every bell at its own place.
    pub fn rounds(stage: usize) -> (row: Self)
        requires
            stage > 0,
        ensures
            row@ == rounds(stage as nat),
            row@.len() == stage,
            forall|place: int| 0 <= place < stage ==> #[trigger] row@[place] == place,
    {
        let mut bells: Vec<usize> = Vec::new();
        while bells.len() < stage
            invariant
                bells@.len() <= stage,
                forall|i: int| 0 <= i < bells@.len() ==> #[trigger] bells@[i] == i,
            decreases stage - bells@.len(),
        {
            let bell: usize = bells.len();
            bells.push(bell);
        }
        assert(bells@ =~= rounds(stage as nat));
        Row { bells }
    }

    /// The bells of this row, from the front to the back.
    pub fn bells(&self) -> (bells: &Vec<usize>)
        ensures
            bells@ == self@,
            is_row(self@),
    {
        proof {
            use_type_invariant(self);
        }
        &self.bells
    }

    /// Whether both rows have the same bells at every place.
    pub fn same_as(&self, other: &Row) -> (same: bool)
        ensures
            same == (self@ == other@),
    {
        let len: usize = self.bells.len();
        if len != other.bells.len() {
            return false;
        }
        let mut i: usize = 0;
        while i < len
            invariant
                i <= len,
                len == self@.len(),
                len == other@.len(),
                forall|j: int| 0 <= j < i ==> #[trigger] self@[j] == other@[j],
            decreases len - i,
        {
            if self.bells[i] != other.bells[i] {
                assert(self@[i as int] != other@[i as int]);
                return false;
            }
            i = i + 1;
        }
        assert(self@ =~= other@);
        true
    }

    /// This row permuted by `rhs`.
    pub fn times(&self, rhs: &Row) -> (row: Row)
        requires
            self@.len() == rhs@.len(),
        ensures
            row@ == product(self@, rhs@),
            row@.len() == self@.len(),
            forall|place: int|
                0 <= place < self@.len() ==> #[trigger] row@[place] == self@[rhs@[place] as int],
    {
        proof {
            use_type_invariant(self);
            use_type_invariant(rhs);
            lemma_product_is_row(self@, rhs@);
        }
        let bells = multiply(&self.bells, &rhs.bells);
        Row { bells }
    }

    /// The row as text, one name per bell.
    pub fn to_text(&self) -> (text: String)
        ensures
            text@ == row_text(self@),
    {
        proof {
            use_type_invariant(self);
        }
        display(&self.bells)
    }
}

/// The product of two rows of one stage is a row of that stage.
pub proof fn lemma_product_is_row(lhs: Seq<usize>, rhs: Seq<usize>)
    requires
        is_row(lhs),
        is_row(rhs),
        lhs.len() == rhs.len(),
    ensures
        is_row(product(lhs, rhs)),
        product(lhs, rhs).len() == lhs.len(),
{
    let bells = product(lhs, rhs);
    assert forall|i: int, j: int|
        0 <= i < bells.len() && 0 <= j < bells.len() && i != j implies bells[i] != bells[j] by {
        assert(rhs[i] != rhs[j]);
        assert(lhs[rhs[i] as int] != lhs[rhs[j] as int]);
    }
}

/// The product of two rows has, at each place, the bell of the first row at the place that the second
/// row names there.
pub proof fn law_product_permutes(lhs: Seq<usize>, rhs: Seq<usize>)
    ensures
        product(lhs, rhs).len() == rhs.len(),
        forall|place: int|
            0 <= place < rhs.len() ==> #[trigger] product(lhs, rhs)[place] == lhs[rhs[place] as int],
{
}

/// As long as every bell has a name of its own, a row is displayed as one name for each of its bells.
pub proof fn law_row_text_names_bells(bells: Seq<usize>)
    requires
        forall|place: int| 0 <= place < bells.len() ==> #[trigger] bells[place] < 33,
    ensures
        row_text(bells).len() == bells.len(),
        forall|place: int|
            0 <= place < bells.len() ==> #[trigger] row_text(bells)[place]
                == "1234567890ETABCDFGHJKLMNPQRSUVWYZ"@[bells[place] as int],
    decreases bells.len(),
{
    reveal_strlit("1234567890ETABCDFGHJKLMNPQRSUVWYZ");
    if bells.len() > 0 {
        let front = bells.drop_last();
        assert forall|place: int| 0 <= place < front.len() implies #[trigger] front[place] < 33 by {
            assert(front[place] == bells[place]);
        }
        law_row_text_names_bells(front);
        assert(bells[bells.len() - 1] < 33);
        assert forall|place: int| 0 <= place < bells.len() implies #[trigger] row_text(bells)[place]
            == "1234567890ETABCDFGHJKLMNPQRSUVWYZ"@[bells[place] as int] by {
            if place < front.len() {
                assert(row_text(bells)[place] == row_text(front)[place]);
            }
        }
    }
}

/// Rounds changes no row that it is multiplied with.
pub proof fn law_rounds_is_identity(bells: Seq<usize>)
    requires
        is_row(bells),
        bells.len() <= usize::MAX,
    ensures
        product(rounds(bells.len()), bells) == bells,
        product(bells, rounds(bells.len())) == bells,
{
    assert(product(rounds(bells.len()), bells) =~= bells);
    assert(product(bells, rounds(bells.len())) =~= bells);
}

/// Multiplying rows is associative.
pub proof fn law_product_is_associative(a: Seq<usize>, b: Seq<usize>, c: Seq<usize>)
    requires
        is_row(a),
        is_row(b),
        is_row(c),
        a.len() == b.len(),
        b.len() == c.len(),
    ensures
        product(product(a, b), c) == product(a, product(b, c)),
{
    assert(product(product(a, b), c) =~= product(a, product(b, c)));
}

/// Whether a row of these bells has every bell that the mask names at the place that the mask
/// names it for.
pub open spec fn mask_matches(mask: Seq<Option<usize>>, row: Seq<usize>) -> bool {
    &&& mask.len() == row.len()
    &&& forall|i: int| 0 <= i < mask.len() && #[trigger] mask[i] is Some ==> mask[i] == Some(row[i])
}

/// The places, from the front to the back, at which the mask names no bell.
pub open spec fn unspecified(mask: Seq<Option<usize>>) -> Seq<usize> {
    Seq::new(mask.len(), |i: int| i as usize).filter(|place: usize| mask[place as int] is None)
}

/// The places that a mask leaves open are those at which it names no bell, in ascending order.
proof fn lemma_unspecified_places(mask: Seq<Option<usize>>)
    requires
        mask.len() <= usize::MAX,
    ensures
        forall|i: int|
            0 <= i < unspecified(mask).len() ==> #[trigger] unspecified(mask)[i] < mask.len()
                && mask[unspecified(mask)[i] as int] is None,
        forall|i: int, j: int|
            0 <= i < j < unspecified(mask).len() ==> #[trigger] unspecified(mask)[i]
                < #[trigger] unspecified(mask)[j],
        forall|place: int|
            0 <= place < mask.len() && (#[trigger] mask[place]) is None ==> unspecified(
                mask,
            ).contains(place as usize),
{
    let all = Seq::new(mask.len(), |i: int| i as usize);
    let open = |place: usize| mask[place as int] is None;
    lemma_filter_ascends(all, open);
    assert forall|i: int| 0 <= i < unspecified(mask).len() implies #[trigger] unspecified(mask)[i]
        < mask.len() && mask[unspecified(mask)[i] as int] is None by {
        all.lemma_filter_pred(open, i);
        all.lemma_filter_contains_rev(open, unspecified(mask)[i]);
    }
    assert forall|place: int| 0 <= place < mask.len() && (
    #[trigger] mask[place]) is None implies unspecified(mask).contains(place as usize) by {
        assert(all[place] == place as usize);
        all.lemma_filter_contains(open, place);
    }
}

/// A pattern of rows, which names the bell at some places and leaves the other places open.
pub struct Mask {
    pub bells: Vec<Option<usize>>,
}

impl View for Mask {
    type V = Seq<Option<usize>>;

    open spec fn view(&self) -> Seq<Option<usize>> {
        self.bells@
    }
}

impl Clone for Mask {
    fn clone(&self) -> (mask: Self)
        ensures
            mask@ == self@,
    {
        let bells = self.bells.clone();
        assert(bells@ =~= self.bells@);
        Mask { bells }
    }
}

impl Mask {
    /// The mask that names the given bells, and no bell where there is `None`.
    pub fn new(bells: Vec<Option<usize>>) -> (mask: Self)
        ensures
            mask@ == bells@,
    {
        Mask { bells }
    }

    /// Whether `row` is of this mask's stage and has every named bell at its place.
    pub fn matches(&self, row: &Row) -> (result: bool)
        ensures
            result == mask_matches(self@, row@),
            result <==> self.bells@.len() == row@.len() && forall|place: int|
                0 <= place < row@.len() && (#[trigger] self.bells@[place]) is Some
                    ==> self.bells@[place] == Some(row@[place]),
    {
        let bells = row.bells();
        let len: usize = self.bells.len();
        if len != bells.len() {
            return false;
        }
        let mut i: usize = 0;
        while i < len
            invariant
                i <= len,
                len == self@.len(),
                len == row@.len(),
                bells@ == row@,
                forall|j: int|
                    0 <= j < i && #[trigger] self@[j] is Some ==> self@[j] == Some(row@[j]),
            decreases len - i,
        {
            if let Some(bell) = self.bells[i] {
                if bell != bells[i] {
                    assert(self@[i as int] is Some && self@[i as int] != Some(row@[i as int]));
                    return false;
                }
            }
            i = i + 1;
        }
        true
    }

    /// The first place at which this mask names `bell`.
    pub fn place_of(&self, bell: usize) -> (place: Option<usize>)
        ensures
            match place {
                Some(place) => {
                    &&& place < self@.len()
                    &&& self@[place as int] == Some(bell)
                    &&& forall|i: int| 0 <= i < place ==> #[trigger] self@[i] != Some(bell)
                },
                None => !self@.contains(Some(bell)),
            },
    {
        let mut i: usize = 0;
        while i < self.bells.len()
            invariant
                i <= self@.len(),
                forall|j: int| 0 <= j < i ==> #[trigger] self@[j] != Some(bell),
            decreases self@.len() - i,
        {
            if let Some(other) = self.bells[i] {
                if other == bell {
                    return Some(i);
                }
            }
            i = i + 1;
        }
        None
    }

    /// The places, in ascending order, at which this mask names no bell.
    pub fn unspecified_places(&self) -> (places: Vec<usize>)
        ensures
            places@ == unspecified(self@),
            forall|i: int|
                0 <= i < places@.len() ==> #[trigger] places@[i] < self.bells@.len()
                    && self.bells@[places@[i] as int] is None,
            forall|i: int, j: int|
                0 <= i < j < places@.len() ==> #[trigger] places@[i] < #[trigger] places@[j],
            forall|place: int|
                0 <= place < self.bells@.len() && (#[trigger] self.bells@[place]) is None
                    ==> places@.contains(place as usize),
    {
        let ghost all = Seq::new(self@.len(), |i: int| i as usize);
        let ghost open = |place: usize| self@[place as int] is None;
        let mut places: Vec<usize> = Vec::new();
        let mut i: usize = 0;
        assert(all.take(0) =~= Seq::<usize>::empty());
        assert(all.take(0).filter(open) =~= Seq::<usize>::empty()) by {
            reveal(Seq::filter);
        }
        while i < self.bells.len()
            invariant
                i <= self@.len(),
                all == Seq::new(self@.len(), |i: int| i as usize),
                open == (|place: usize| self@[place as int] is None),
                places@ == all.take(i as int).filter(open),
            decreases self@.len() - i,
        {
            proof {
                assert(all.take(i + 1) =~= all.take(i as int).push(i));
                all.take(i as int).lemma_filter_push(i, open);
            }
            if self.bells[i].is_none() {
                places.push(i);
            }
            i = i + 1;
        }
        assert(all.take(i as int) =~= all);
        proof {
            lemma_unspecified_places(self@);
        }
        places
    }

    /// This mask, with `bell` named at `place` as well.
    pub fn with_bell(&self, bell: usize, place: usize) -> (mask: Self)
        requires
            place < self@.len(),
        ensures
            mask@ == self@.update(place as int, Some(bell)),
    {
        let mut mask = self.clone();
        mask.bells.set(place, Some(bell));
        mask
    }
}

/// Whether `places`, in ascending order, name the places of one piece of notation on `num_bells`
/// bells without ambiguity: between two neighbours there is room for one implied place, or for
/// pairs of bells that cross.
pub open spec fn unambiguous(places: Seq<usize>, num_bells: nat) -> bool {
    &&& places.len() > 0
    &&& places.last() < num_bells
    &&& forall|i: int|
        0 <= i < places.len() - 1 ==> {
            let gap = #[trigger] places[i + 1] - places[i] - 1;
            gap == 1 || (gap >= 0 && gap % 2 == 0)
        }
}

/// Whether a place is made at `place` in the notation that writes `places`: it is written, or it
/// is implied between two written places, or it is implied at the front or at the back, where an
/// odd number of bells would be left over.
pub open spec fn place_made(places: Seq<usize>, num_bells: nat, place: int) -> bool {
    ||| exists|i: int| 0 <= i < places.len() && #[trigger] places[i] == place
    ||| exists|i: int|
        0 <= i < places.len() - 1 && places[i] + 1 == place && place + 1 == #[trigger] places[i + 1]
    ||| place == 0 && places[0] % 2 == 1
    ||| place == num_bells - 1 && (num_bells - places.last()) % 2 == 0
}

/// For each place of the stage, whether it is made in the notation that writes `places`.
pub open spec fn notation(places: Seq<usize>, num_bells: nat) -> Seq<bool> {
    Seq::new(num_bells, |place: int| place_made(places, num_bells, place))
}

/// The bells that are named in a text.  Other characters are passed over.
pub open spec fn named_bells(text: Seq<char>) -> Seq<usize>
    decreases text.len(),
{
    if text.len() == 0 {
        Seq::empty()
    } else {
        let before = named_bells(text.drop_last());
        if bell_names().contains(text.last()) {
            before.push(bell_names().index_of(text.last()) as usize)
        } else {
            before
        }
    }
}

/// The places that are written in a text, in ascending order: each is written as the name of the
/// bell that is there in rounds.
pub open spec fn written_places(text: Seq<char>) -> Seq<usize> {
    named_bells(text).sort_by(|a: usize, b: usize| a <= b)
}

/// For each place of a stage of `num_bells` bells, whether it is made in the place notation that
/// `text` writes; nothing if the text is no valid notation.
///
/// A cross is a notation without places.  It is only valid if the number of bells is even.
pub open spec fn parsed_places(text: Seq<char>, num_bells: nat) -> Option<Seq<bool>> {
    if text == seq!['-'] || text == seq!['x'] || text == seq!['X'] {
        if num_bells % 2 == 0 {
            Some(Seq::new(num_bells, |place: int| false))
        } else {
            None
        }
    } else if unambiguous(written_places(text), num_bells) {
        Some(notation(written_places(text), num_bells))
    } else {
        None
    }
}

/// Parses one piece of place notation with `bellframe`'s `PlaceNot::parse`, and asks
/// `PlaceNot::contains` for every place of the stage.
///
/// It is relied on that a cross is parsed on its own, and that in any other text the names of bells
/// are the written places, that nothing but an ambiguity, no place at all or a place outside the
/// stage makes parsing fail, and that the places made are those written and implied.
#[verifier::external_body]
fn parse_places(text: &str, num_bells: usize) -> (made: Option<Vec<bool>>)
    requires
        num_bells > 0,
    ensures
        match made {
            Some(made) => parsed_places(text@, num_bells as nat) == Some(made@),
            None => parsed_places(text@, num_bells as nat) is None,
        },
{
    bellframe::PlaceNot::parse(text, bellframe::Stage::new(num_bells))
        .ok()
        .map(|place_not| (0..num_bells).map(|place| place_not.contains(place)).collect())
}

/// Whether `text` is made of the digits `1` to `9` in strictly ascending order.
pub open spec fn ascending_digits(text: Seq<char>) -> bool {
    &&& forall|i: int| 0 <= i < text.len() ==> '1' <= #[trigger] text[i] <= '9'
    &&& forall|i: int, j: int| 0 <= i < j < text.len() ==> #[trigger] text[i] < #[trigger] text[j]
}

/// The places that a text of digits writes: the digit `1` is for leading.
pub open spec fn digit_places(text: Seq<char>) -> Seq<usize> {
    Seq::new(text.len(), |i: int| (text[i] as int - '1' as int) as usize)
}

/// A digit is the name of the bell that it counts.
proof fn lemma_digit_names(c: char)
    requires
        '1' <= c <= '9',
    ensures
        bell_names().contains(c),
        bell_names().index_of(c) == c as int - '1' as int,
{
    reveal_strlit("1234567890ETABCDFGHJKLMNPQRSUVWYZ");
    let names = bell_names();
    assert(names[c as int - '1' as int] == c);
    let i = names.index_of(c);
    assert(names[i] == c);
}

/// Digits name the bells that they count.
proof fn lemma_named_by_digits(text: Seq<char>)
    requires
        forall|i: int| 0 <= i < text.len() ==> '1' <= #[trigger] text[i] <= '9',
    ensures
        named_bells(text) == digit_places(text),
    decreases text.len(),
{
    if text.len() > 0 {
        let front = text.drop_last();
        assert forall|i: int| 0 <= i < front.len() implies '1' <= #[trigger] front[i] <= '9' by {
            assert(front[i] == text[i]);
        }
        lemma_named_by_digits(front);
        lemma_digit_names(text.last());
        assert(digit_places(text) =~= digit_places(front).push(
            (text.last() as int - '1' as int) as usize,
        ));
    } else {
        assert(digit_places(text) =~= Seq::empty());
    }
}

/// Digits in ascending order write the places that they count, and need no sorting.
pub proof fn lemma_ascending_digits(text: Seq<char>)
    requires
        ascending_digits(text),
    ensures
        written_places(text) == digit_places(text),
{
    let places = named_bells(text);
    let leq = |a: usize, b: usize| a <= b;
    lemma_named_by_digits(text);
    assert(total_ordering(leq));
    places.lemma_sort_by_ensures(leq);
    assert(sorted_by(places, leq)) by {
        assert forall|i: int, j: int| 0 <= i < j < places.len() implies #[trigger] leq(
            places[i],
            places[j],
        ) by {
            assert(text[i] < text[j]);
        }
    }
    vstd::seq_lib::lemma_sorted_unique(places, places.sort_by(leq), leq);
}

/// One piece of place notation: the places of a stage at which a bell stays where it is.
pub struct PlaceNot {
    made: Vec<bool>,
    stage: Stage,
}

/// For each place of the stage, whether it is made.
impl View for PlaceNot {
    type V = Seq<bool>;

    closed spec fn view(&self) -> Seq<bool> {
        self.made@
    }
}

impl Clone for PlaceNot {
    fn clone(&self) -> (place_not: Self)
        ensures
            place_not@ == self@,
    {
        proof {
            use_type_invariant(self);
        }
        let made = self.made.clone();
        assert(made@ =~= self.made@);
        PlaceNot { made, stage: self.stage }
    }
}

impl PlaceNot {
    #[verifier::type_invariant]
    spec fn covers_stage(self) -> bool {
        self.made@.len() == self.stage@
    }

    /// Parses a piece of place notation, which may leave out implied places.
    pub fn parse(text: &str, stage: Stage) -> (place_not: Option<Self>)
        ensures
            match place_not {
                Some(place_not) => parsed_places(text@, stage@) == Some(place_not@),
                None => parsed_places(text@, stage@) is None,
            },
    {
        let num_bells: usize = stage.num_bells();
        match parse_places(text, num_bells) {
            Some(made) => Some(PlaceNot { made, stage }),
            None => None,
        }
    }

    /// The notation that writes the given places, which are in ascending order; nothing if they
    /// are ambiguous or not within the stage.
    pub fn from_sorted_places(places: &Vec<usize>, stage: Stage) -> (place_not: Option<Self>)
        requires
            forall|i: int, j: int|
                0 <= i < j < places@.len() ==> #[trigger] places@[i] <= #[trigger] places@[j],
        ensures
            place_not is Some <==> unambiguous(places@, stage@),
            place_not matches Some(place_not) ==> place_not@ == notation(places@, stage@),
            place_not is Some <==> places@.len() > 0 && places@[places@.len() - 1] < stage@ && forall|
                i: int,
            |
                0 <= i < places@.len() - 1 ==> {
                    ||| #[trigger] places@[i + 1] == places@[i] + 2
                    ||| places@[i + 1] > places@[i] && (places@[i + 1] - places@[i]) % 2 == 1
                },
            place_not matches Some(place_not) ==> place_not@.len() == stage@ && forall|place: int|
                0 <= place < stage@ ==> (#[trigger] place_not@[place] <==> {
                    ||| places@.contains(place as usize)
                    ||| exists|i: int|
                        0 <= i < places@.len() - 1 && places@[i] == place - 1
                            && #[trigger] places@[i + 1] == place + 1
                    ||| place == 0 && places@[0] % 2 == 1
                    ||| place == stage@ - 1 && (stage@ - 1 - places@[places@.len() - 1]) % 2 == 1
                }),
    {
        let num_bells: usize = stage.num_bells();
        let len: usize = places.len();
        if len == 0 {
            return None;
        }
        let last: usize = places[len - 1];
        if last >= num_bells {
            return None;
        }
        let mut made: Vec<bool> = Vec::new();
        while made.len() < num_bells
            invariant
                made@.len() <= num_bells,
                forall|p: int| 0 <= p < made@.len() ==> !#[trigger] made@[p],
            decreases num_bells - made@.len(),
        {
            made.push(false);
        }
        let mut i: usize = 0;
        while i < len
            invariant
                i <= len,
                len == places@.len(),
                len > 0,
                num_bells == stage@,
                made@.len() == num_bells,
                last == places@[len - 1],
                last < num_bells,
                forall|a: int, b: int|
                    0 <= a < b < places@.len() ==> #[trigger] places@[a] <= #[trigger] places@[b],
                forall|a: int|
                    0 <= a < i && a < places@.len() - 1 ==> {
                        let gap = #[trigger] places@[a + 1] - places@[a] - 1;
                        gap == 1 || (gap >= 0 && gap % 2 == 0)
                    },
                forall|p: int|
                    0 <= p < num_bells ==> (#[trigger] made@[p] <==> {
                        ||| exists|a: int| 0 <= a < i && #[trigger] places@[a] == p
                        ||| exists|a: int|
                            0 <= a < i && a < places@.len() - 1 && places@[a] + 1 == p && p + 1
                                == #[trigger] places@[a + 1]
                    }),
            decreases len - i,
        {
            let place: usize = places[i];
            assert(place <= last);
            let ghost before = made@;
            made.set(place, true);
            if i + 1 < len {
                let next: usize = places[i + 1];
                assert(next <= last);
                if next == place || (next - place != 2 && (next - place) % 2 == 0) {
                    assert({
                        let gap = places@[i + 1] - places@[i as int] - 1;
                        !(gap == 1 || (gap >= 0 && gap % 2 == 0))
                    });
                    return None;
                }
                if next - place == 2 {
                    made.set(place + 1, true);
                }
            }
            proof {
                assert forall|p: int| 0 <= p < num_bells implies (#[trigger] made@[p] <==> {
                    ||| exists|a: int| 0 <= a < i + 1 && #[trigger] places@[a] == p
                    ||| exists|a: int|
                        0 <= a < i + 1 && a < places@.len() - 1 && places@[a] + 1 == p && p + 1
                            == #[trigger] places@[a + 1]
                }) by {
                    if made@[p] && !before[p] {
                        if p == place {
                            assert(places@[i as int] == p);
                        } else {
                            assert(places@[i + 1] == p + 1);
                        }
                    }
                    if before[p] {
                        assert(made@[p]);
                    }
                }
            }
            i = i + 1;
        }
        if places[0] % 2 == 1 {
            made.set(0, true);
        }
        if (num_bells - last) % 2 == 0 {
            made.set(num_bells - 1, true);
        }
        assert(made@ =~= notation(places@, stage@));
        proof {
            assert forall|place: int| 0 <= place < num_bells implies (
            #[trigger] places@.contains(place as usize) <==> exists|a: int|
                0 <= a < places@.len() && #[trigger] places@[a] == place) by {}
        }
        Some(PlaceNot { made, stage })
    }

    /// Whether a place is made at `place`.
    pub fn contains(&self, place: usize) -> (made: bool)
        ensures
            made == (place < self@.len() && self@[place as int]),
    {
        place < self.made.len() && self.made[place]
    }

    /// The stage that this notation is for.
    pub fn stage(&self) -> (stage: Stage)
        ensures
            stage@ == self@.len(),
            stage@ > 0,
    {
        proof {
            use_type_invariant(self);
            use_type_invariant(&self.stage);
        }
        self.stage
    }
}

/// A sequence of rows that is rung again and again, each time from where it left off.
pub struct Block {
    pub rows: Vec<Row>,
}

/// The bells of each row.
impl View for Block {
    type V = Seq<Seq<usize>>;

    open spec fn view(&self) -> Seq<Seq<usize>> {
        self.rows@.map_values(|row: Row| row@)
    }
}

impl Block {
    /// The number of rows before the block repeats.
    pub fn len(&self) -> (len: usize)
        ensures
            len == self@.len(),
    {
        self.rows.len()
    }
}

} // verus!
