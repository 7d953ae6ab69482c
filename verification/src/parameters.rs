//! What a match is run on: the arriving units and the table of programs.

use vstd::prelude::*;
use crate::models::{Applicant, Couple, Program};

verus! {

/// The input of a match.
///
/// `num_applicants` counts every applicant, the two members of a couple one
/// each; `num_programs` counts the programs.
pub struct MatchParameters {
    pub applicants: Vec<Couple<Applicant>>,
    pub programs: Vec<Program>,
    pub num_programs: usize,
    pub num_applicants: usize,
}

/// How many of `units` are couples.
pub open spec fn couples_among(units: Seq<Couple<Applicant>>) -> nat
    decreases units.len(),
{
    if units.len() == 0 {
        0
    } else {
        couples_among(units.drop_last()) + if units.last().1 is Some {
            1nat
        } else {
            0nat
        }
    }
}

impl MatchParameters {
    /// Bundles the units and the programs and counts them.
    pub fn new(applicants: Vec<Couple<Applicant>>, programs: Vec<Program>) -> (bundle: MatchParameters)
        requires
            applicants@.len() + couples_among(applicants@) <= usize::MAX,
        ensures
            bundle.applicants == applicants,
            bundle.programs == programs,
            bundle.num_programs == programs@.len(),
            bundle.num_applicants == applicants@.len() + couples_among(applicants@),
    {
        let mut couples: usize = 0;
        let mut i: usize = 0;
        while i < applicants.len()
            invariant
                i <= applicants@.len(),
                couples == couples_among(applicants@.take(i as int)),
                couples <= i,
            decreases applicants@.len() - i,
        {
            proof {
                assert(applicants@.take(i + 1).drop_last() == applicants@.take(i as int));
                assert(applicants@.take(i + 1).last() == applicants@[i as int]);
            }
            if applicants[i].1.is_some() {
                couples += 1;
            }
            i += 1;
        }
        proof {
            assert(applicants@.take(i as int) == applicants@);
        }
        let num_applicants = applicants.len() + couples;
        let num_programs = programs.len();
        MatchParameters { applicants, programs, num_programs, num_applicants }
    }
}

} // verus!
