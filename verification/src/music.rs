//! The music of some rows.

use vstd::prelude::*;

#[allow(unused_imports)]
use crate::primitives::Row;

verus! {

/// The music generated by some rows, scored by values of type `S`.
#[derive(Debug)]
pub struct Breakdown<S> {
    /// The score of all the music together.
    pub total: S,
    /// How often each type of music occurs.
    pub counts: Vec<usize>,
}

impl<S> View for Breakdown<S> {
    type V = (S, Seq<usize>);

    open spec fn view(&self) -> (S, Seq<usize>) {
        (self.total, self.counts@)
    }
}

impl<S: Copy> Clone for Breakdown<S> {
    fn clone(&self) -> (music: Self)
        ensures
            music@ == self@,
    {
        let counts = self.counts.clone();
        assert(counts@ =~= self.counts@);
        Breakdown { total: self.total, counts }
    }
}

/// How the music of rows is scored.
pub struct Scoring<S, C, A> {
    /// The music of no rows.
    pub zero: Breakdown<S>,
    /// Yields the music of some rows of the plain course in the course with a given head.
    pub in_course: C,
    /// Adds up two pieces of music.
    pub sum: A,
}

/// Whether the music of any rows can be found, in any course, and added to any other.
pub open spec fn can_score<
    S,
    C: Fn(&Vec<&Row>, &Row) -> Breakdown<S>,
    A: Fn(Breakdown<S>, Breakdown<S>) -> Breakdown<S>,
>(scoring: Scoring<S, C, A>) -> bool {
    &&& forall|rows: &Vec<&Row>, course_head: &Row| #[trigger]
        call_requires(scoring.in_course, (rows, course_head))
    &&& forall|a: Breakdown<S>, b: Breakdown<S>| #[trigger] call_requires(scoring.sum, (a, b))
}

} // verus!
