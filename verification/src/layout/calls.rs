//! The calls that can be used in a composition.

use vstd::prelude::*;

use crate::primitives::{PlaceNot, Stage};
#[allow(unused_imports)]
use crate::primitives::{digit_places, lemma_ascending_digits, notation};
#[allow(unused_imports)]
use crate::text::{decimal, from_char, law_decimal_reads_back, to_decimal};

verus! {

/// The label of the lead end, `bellframe::method::LABEL_LEAD_END`.
///
/// It is relied on that this constant is `"LE"`.
#[verifier::external_body]
fn lead_end_label() -> (label: String)
    ensures
        label@ == "LE"@,
{
    bellframe::method::LABEL_LEAD_END.to_owned()
}

/// The name of the calling position at a place, for a call on `num_bells` bells which does or does
/// not make seconds.
///
/// The last three places have the names of the usual calling positions, unless they are among the
/// first four places.  Every other place has a letter, or its number where the letters have run
/// out.
pub open spec fn calling_position(num_bells: nat, makes_seconds: bool, place: nat) -> Seq<char> {
    if place >= 4 && place + 1 == num_bells {
        seq!['H']
    } else if place >= 4 && place + 2 == num_bells {
        if num_bells % 2 == 0 {
            seq!['W']
        } else {
            seq!['M']
        }
    } else if place >= 4 && place + 3 == num_bells {
        if num_bells % 2 == 0 {
            seq!['M']
        } else {
            seq!['W']
        }
    } else if makes_seconds && place == 1 {
        seq!['B']
    } else if makes_seconds && place == 2 {
        seq!['T']
    } else if place < 9 {
        seq!["LIBFVXSEN"@[place as int]]
    } else {
        decimal(place + 1)
    }
}

/// The names of the calling positions of a call, one for each place of its stage.
pub open spec fn calling_positions(place_not: Seq<bool>) -> Seq<Seq<char>> {
    let makes_seconds = place_not.len() > 1 && place_not[1];
    Seq::new(
        place_not.len(),
        |place: int| calling_position(place_not.len(), makes_seconds, place as nat),
    )
}

/// The characters of each text.
pub open spec fn texts(strings: Seq<String>) -> Seq<Seq<char>> {
    strings.map_values(|s: String| s@)
}

/// The calling positions of a call that replaces the lead end with some place notation.
pub fn default_calling_positions(place_not: &PlaceNot) -> (positions: Vec<String>)
    ensures
        texts(positions@) == calling_positions(place_not@),
{
    let num_bells: usize = place_not.stage().num_bells();
    let is_even: bool = place_not.stage().is_even();
    let makes_seconds: bool = place_not.contains(1);
    let mut positions: Vec<String> = Vec::new();
    proof {
        reveal_strlit("LIBFVXSEN");
    }
    while positions.len() < num_bells
        invariant
            positions@.len() <= num_bells,
            num_bells == place_not@.len(),
            is_even == (num_bells % 2 == 0),
            makes_seconds == (place_not@.len() > 1 && place_not@[1]),
            "LIBFVXSEN"@.len() == 9,
            forall|i: int|
                0 <= i < positions@.len() ==> (#[trigger] positions@[i])@ == calling_position(
                    num_bells as nat,
                    makes_seconds,
                    i as nat,
                ),
        decreases num_bells - positions@.len(),
    {
        let place: usize = positions.len();
        let from_back: usize = num_bells - place;
        let position: String = if place >= 4 && from_back <= 3 {
            if from_back == 1 {
                from_char('H')
            } else if (from_back == 2) == is_even {
                from_char('W')
            } else {
                from_char('M')
            }
        } else if makes_seconds && place == 1 {
            from_char('B')
        } else if makes_seconds && place == 2 {
            from_char('T')
        } else if place < 9 {
            from_char("LIBFVXSEN".get_char(place))
        } else {
            to_decimal(place + 1)
        };
        positions.push(position);
    }
    assert(texts(positions@) =~= calling_positions(place_not@));
    positions
}

/// The specification for a call that can be used in a composition.
pub struct Call {
    pub display_symbol: String,
    pub debug_symbol: String,
    pub lead_location: String,
    pub place_not: PlaceNot,
    pub calling_positions: Vec<String>,
}

/// The near calls make places at the front: a `14` bob in the first and the fourth place, a `1234`
/// single in the first four places, and both at the back if there is an odd number of bells.
pub proof fn law_near_places(num_bells: nat)
    requires
        num_bells >= 4,
    ensures
        ({
            let bob = notation(seq![0, 3], num_bells);
            let single = notation(seq![0, 1, 2, 3], num_bells);
            &&& bob.len() == num_bells
            &&& single.len() == num_bells
            &&& forall|place: int|
                0 <= place < num_bells ==> (#[trigger] bob[place] <==> place == 0 || place == 3 || (
                place == num_bells - 1 && num_bells % 2 == 1))
            &&& forall|place: int|
                0 <= place < num_bells ==> (#[trigger] single[place] <==> place <= 3 || (place
                    == num_bells - 1 && num_bells % 2 == 1))
        }),
{
    let bob = seq![0usize, 3];
    let single = seq![0usize, 1, 2, 3];
    assert forall|place: int| 0 <= place < num_bells implies (#[trigger] notation(
        bob,
        num_bells,
    )[place] <==> place == 0 || place == 3 || (place == num_bells - 1 && num_bells % 2 == 1)) by {
        assert(bob[0] == 0 && bob[1] == 3);
    }
    assert forall|place: int| 0 <= place < num_bells implies (#[trigger] notation(
        single,
        num_bells,
    )[place] <==> place <= 3 || (place == num_bells - 1 && num_bells % 2 == 1)) by {
        assert(single[0] == 0 && single[1] == 1 && single[2] == 2 && single[3] == 3);
    }
}

/// The far calls lead and make places at the back: a bob in the last place but two, a single in the last
/// three places.  On five bells this leaves a single bell between them, which makes a place too.
pub proof fn law_far_places(n: usize)
    requires
        n >= 4,
        n % 2 == 0 || n < 7,
    ensures
        ({
            let bob = notation(seq![0, (n - 3) as usize], n as nat);
            let single = notation(
                seq![0, (n - 3) as usize, (n - 2) as usize, (n - 1) as usize],
                n as nat,
            );
            &&& bob.len() == n
            &&& single.len() == n
            &&& forall|place: int|
                0 <= place < n ==> (#[trigger] bob[place] <==> place == 0 || place == n - 3 || (place
                    == 1 && n == 5))
            &&& forall|place: int|
                0 <= place < n ==> (#[trigger] single[place] <==> place == 0 || place >= n - 3 || (
                place == 1 && n == 5))
        }),
{
    let bob = seq![0, (n - 3) as usize];
    let single = seq![0, (n - 3) as usize, (n - 2) as usize, (n - 1) as usize];
    assert forall|place: int| 0 <= place < n implies (#[trigger] notation(bob, n as nat)[place]
        <==> place == 0 || place == n - 3 || (place == 1 && n == 5)) by {
        assert(bob[0] == 0 && bob[0int + 1] == n - 3);
    }
    assert forall|place: int| 0 <= place < n implies (#[trigger] notation(single, n as nat)[place]
        <==> place == 0 || place >= n - 3 || (place == 1 && n == 5)) by {
        assert(single[0] == 0 && single[0int + 1] == n - 3 && single[1int + 1] == n - 2 && single[2int + 1]
            == n - 1);
    }
}

/// Every place of a call's stage has a calling position.  From five bells on the last three places are
/// the home, and the wrong and the middle, of which the wrong is at the front if the number of bells is
/// odd.  The second and the third place are before and third if the call makes seconds.  All other places
/// up to the ninth have a letter of their own, and those after it their number.
pub proof fn law_calling_positions(place_not: Seq<bool>, place: int)
    requires
        0 <= place < place_not.len(),
    ensures
        calling_positions(place_not).len() == place_not.len(),
        ({
            let n = place_not.len();
            let position = calling_positions(place_not)[place];
            let is_last = place >= 4 && place >= n - 3;
            let after_seconds = place_not[1] && (place == 1 || place == 2);
            &&& is_last && place == n - 1 ==> position == seq!['H']
            &&& is_last && place == n - 2 && n % 2 == 0 ==> position == seq!['W']
            &&& is_last && place == n - 2 && n % 2 == 1 ==> position == seq!['M']
            &&& is_last && place == n - 3 && n % 2 == 0 ==> position == seq!['M']
            &&& is_last && place == n - 3 && n % 2 == 1 ==> position == seq!['W']
            &&& after_seconds && place == 1 ==> position == seq!['B']
            &&& after_seconds && place == 2 ==> position == seq!['T']
            &&& !is_last && !after_seconds && place < 9 ==> position
                == seq![seq!['L', 'I', 'B', 'F', 'V', 'X', 'S', 'E', 'N'][place]]
            &&& !is_last && place >= 9 ==> position == decimal((place + 1) as nat)
        }),
{
    reveal_strlit("LIBFVXSEN");
}

/// No two places of a call have the same calling position.
pub proof fn law_calling_positions_differ(place_not: Seq<bool>, a: int, b: int)
    requires
        0 <= a < b < place_not.len(),
    ensures
        calling_positions(place_not)[a] != calling_positions(place_not)[b],
{
    law_calling_positions(place_not, a);
    law_calling_positions(place_not, b);
    law_decimal_reads_back((a + 1) as nat);
    law_decimal_reads_back((b + 1) as nat);
    reveal_with_fuel(decimal, 2);
    let position_a = calling_positions(place_not)[a];
    let position_b = calling_positions(place_not)[b];
    if position_a.len() == 1 && position_b.len() == 1 {
        assert(position_a[0] != position_b[0]);
    }
}

impl Call {
    /// Whether this call replaces the lead end with the given notation under the given symbols, and
    /// has the default calling positions.
    pub open spec fn is_lead_end_call(
        &self,
        display_symbol: Seq<char>,
        debug_symbol: Seq<char>,
        place_not: Seq<bool>,
    ) -> bool {
        &&& self.display_symbol@ == display_symbol
        &&& self.debug_symbol@ == debug_symbol
        &&& self.lead_location@ == "LE"@
        &&& self.place_not@ == place_not
        &&& texts(self.calling_positions@) == calling_positions(place_not)
    }

    /// Whether this is a bob over the lead end.
    pub open spec fn is_lead_end_bob(&self, place_not: Seq<bool>) -> bool {
        self.is_lead_end_call(""@, "-"@, place_not)
    }

    /// Whether this is a single over the lead end.
    pub open spec fn is_lead_end_single(&self, place_not: Seq<bool>) -> bool {
        self.is_lead_end_call("s"@, "s"@, place_not)
    }

    /// A call.  If its calling positions are not given, they are the default ones of its place
    /// notation.
    pub fn new(
        display_symbol: String,
        debug_symbol: String,
        lead_location: String,
        place_not: PlaceNot,
        calling_positions: Option<Vec<String>>,
    ) -> (call: Self)
        ensures
            call.display_symbol == display_symbol,
            call.debug_symbol == debug_symbol,
            call.lead_location == lead_location,
            call.place_not == place_not,
            match calling_positions {
                Some(positions) => call.calling_positions == positions,
                None => texts(call.calling_positions@) == self::calling_positions(place_not@),
            },
    {
        let positions = match calling_positions {
            Some(positions) => positions,
            None => default_calling_positions(&place_not),
        };
        Call {
            display_symbol,
            debug_symbol,
            lead_location,
            place_not,
            calling_positions: positions,
        }
    }

    /// A `14` bob and a `1234` single, both at the lead end.  There are none on fewer than four
    /// bells.
    pub fn near_calls(stage: Stage) -> (calls: Option<Vec<Self>>)
        ensures
            calls is None <==> stage@ < 4,
            calls matches Some(calls) ==> {
                &&& calls@.len() == 2
                &&& calls@[0].is_lead_end_bob(notation(seq![0, 3], stage@))
                &&& calls@[1].is_lead_end_single(notation(seq![0, 1, 2, 3], stage@))
                &&& calls@[0].debug_symbol@ == "-"@
                &&& calls@[1].debug_symbol@ == "s"@
                &&& calls@[0].place_not@.len() == stage@
                &&& calls@[1].place_not@.len() == stage@
                &&& forall|place: int|
                    0 <= place < stage@ ==> (#[trigger] calls@[0].place_not@[place] <==> place == 0
                        || place == 3 || (place == stage@ - 1 && stage@ % 2 == 1))
                &&& forall|place: int|
                    0 <= place < stage@ ==> (#[trigger] calls@[1].place_not@[place] <==> place <= 3
                        || (place == stage@ - 1 && stage@ % 2 == 1))
            },
    {
        proof {
            reveal_strlit("14");
            reveal_strlit("1234");
            assert(digit_places("14"@) =~= seq![0usize, 3]);
            assert(digit_places("1234"@) =~= seq![0usize, 1, 2, 3]);
            lemma_ascending_digits("14"@);
            lemma_ascending_digits("1234"@);
        }
        let bob_notation = match PlaceNot::parse("14", stage) {
            Some(place_not) => place_not,
            None => {
                return None;
            },
        };
        let single_notation = match PlaceNot::parse("1234", stage) {
            Some(place_not) => place_not,
            None => {
                return None;
            },
        };
        assert(bob_notation@ =~= notation(seq![0, 3], stage@));
        assert(single_notation@ =~= notation(seq![0, 1, 2, 3], stage@));
        proof {
            law_near_places(stage@);
        }
        let bob = Self::lead_end_bob(bob_notation);
        let single = Self::lead_end_single(single_notation);
        Some(vec![bob, single])
    }

    /// A `1(n-2)` bob and a `1(n-2)(n-1)n` single on `n` bells, both at the lead end.  There are
    /// none on fewer than four bells, and from seven bells on these notations are ambiguous if the
    /// number of bells is odd.
    pub fn far_calls(stage: Stage) -> (calls: Option<Vec<Self>>)
        requires
            stage@ % 2 == 0 || stage@ < 7,
        ensures
            calls is None <==> stage@ < 4,
            calls matches Some(calls) ==> {
                let n = stage@ as usize;
                &&& calls@.len() == 2
                &&& calls@[0].is_lead_end_bob(notation(seq![0, (n - 3) as usize], stage@))
                &&& calls@[1].is_lead_end_single(
                    notation(
                        seq![0, (n - 3) as usize, (n - 2) as usize, (n - 1) as usize],
                        stage@,
                    ),
                )
                &&& calls@[0].debug_symbol@ == "-"@
                &&& calls@[1].debug_symbol@ == "s"@
                &&& calls@[0].place_not@.len() == stage@
                &&& calls@[1].place_not@.len() == stage@
                &&& forall|place: int|
                    0 <= place < stage@ ==> (#[trigger] calls@[0].place_not@[place] <==> place == 0
                        || place == stage@ - 3 || (place == 1 && stage@ == 5))
                &&& forall|place: int|
                    0 <= place < stage@ ==> (#[trigger] calls@[1].place_not@[place] <==> place == 0
                        || place >= stage@ - 3 || (place == 1 && stage@ == 5))
            },
    {
        let n: usize = stage.num_bells();
        if n < 4 {
            return None;
        }
        let bob_places: Vec<usize> = vec![0, n - 3];
        let single_places: Vec<usize> = vec![0, n - 3, n - 2, n - 1];
        let bob_notation = match PlaceNot::from_sorted_places(&bob_places, stage) {
            Some(place_not) => place_not,
            None => {
                return None;
            },
        };
        let single_notation = match PlaceNot::from_sorted_places(&single_places, stage) {
            Some(place_not) => place_not,
            None => {
                return None;
            },
        };
        assert(bob_notation@ =~= notation(bob_places@, stage@));
        assert(single_notation@ =~= notation(single_places@, stage@));
        proof {
            assert(bob_places@ =~= seq![0, (n - 3) as usize]);
            assert(single_places@ =~= seq![
                0,
                (n - 3) as usize,
                (n - 2) as usize,
                (n - 1) as usize,
            ]);
            law_far_places(n);
        }
        let bob = Self::lead_end_bob(bob_notation);
        let single = Self::lead_end_single(single_notation);
        Some(vec![bob, single])
    }

    /// A bob which replaces the lead end with the given place notation.
    pub fn lead_end_bob(place_not: PlaceNot) -> (call: Self)
        ensures
            call.is_lead_end_bob(place_not@),
            call.display_symbol@ == ""@,
            call.debug_symbol@ == "-"@,
            call.lead_location@ == "LE"@,
            call.place_not@ == place_not@,
    {
        Self::new("".to_owned(), "-".to_owned(), lead_end_label(), place_not, None)
    }

    /// A single which replaces the lead end with the given place notation.
    pub fn lead_end_single(place_not: PlaceNot) -> (call: Self)
        ensures
            call.is_lead_end_single(place_not@),
            call.display_symbol@ == "s"@,
            call.debug_symbol@ == "s"@,
            call.lead_location@ == "LE"@,
            call.place_not@ == place_not@,
    {
        Self::new("s".to_owned(), "s".to_owned(), lead_end_label(), place_not, None)
    }
}

} // verus!
