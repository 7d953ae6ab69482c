//! The two sides of the market and the unit in which applicants arrive.
//!
//! An [`Applicant`] proposes, a [`Program`] accepts. Each carries an
//! identifier, a competitiveness score and a preference list over the other
//! side. Applicants arrive as a [`Couple`]: one applicant alone, or two who
//! must be placed jointly.

use vstd::prelude::*;

verus! {

/// Something that may be tied to a partner who must be placed with it.
pub trait HasCouple {
    /// The partner's identifier, if there is a partner.
    spec fn couple_view(&self) -> Option<u32>;

    fn get_couple(&self) -> (partner: Option<u32>)
        ensures
            partner == self.couple_view(),
    ;
}

/// Something that sends out a fixed number of applications.
pub trait HasApplications {
    /// How many entries the finished preference list is meant to have.
    spec fn applications_view(&self) -> u8;

    fn applications(&self) -> (count: u8)
        ensures
            count == self.applications_view(),
    ;
}

/// Something that can hold a bounded number of applicants.
pub trait HasCapacity {
    /// The number of seats.
    spec fn capacity_view(&self) -> u8;

    fn capacity(&self) -> (seats: u8)
        ensures
            seats == self.capacity_view(),
    ;
}

/// An agent on the proposing side.
///
/// `competitiveness` is a score on an integer scale: a greater score means a
/// more competitive applicant, and nothing else is read from it.
#[derive(Debug)]
pub struct Applicant {
    pub id: u32,
    pub applications: u8,
    pub competitiveness: u32,
    pub couple: Option<u32>,
    pub ranking: Vec<u32>,
}

/// What an [`Applicant`] is, as plain values.
pub struct ApplicantView {
    pub id: u32,
    pub applications: u8,
    pub competitiveness: u32,
    pub couple: Option<u32>,
    pub ranking: Seq<u32>,
}

impl View for Applicant {
    type V = ApplicantView;

    open spec fn view(&self) -> ApplicantView {
        ApplicantView {
            id: self.id,
            applications: self.applications,
            competitiveness: self.competitiveness,
            couple: self.couple,
            ranking: self.ranking@,
        }
    }
}

impl Clone for Applicant {
    fn clone(&self) -> (copy: Applicant)
        ensures
            copy@ == self@,
    {
        Applicant {
            id: self.id,
            applications: self.applications,
            competitiveness: self.competitiveness,
            couple: self.couple,
            ranking: self.ranking.clone(),
        }
    }
}

impl HasCouple for Applicant {
    open spec fn couple_view(&self) -> Option<u32> {
        self.couple
    }

    fn get_couple(&self) -> (partner: Option<u32>) {
        self.couple
    }
}

impl HasApplications for Applicant {
    open spec fn applications_view(&self) -> u8 {
        self.applications
    }

    fn applications(&self) -> (count: u8) {
        self.applications
    }
}

/// An agent on the accepting side.
///
/// `ranking` lists the applicants that applied, most preferred first, each
/// with the competitiveness score it applied with.
#[derive(Debug)]
pub struct Program {
    pub id: u32,
    pub capacity: u8,
    pub competitiveness: u32,
    pub ranking: Vec<(u32, u32)>,
}

/// What a [`Program`] is, as plain values.
pub struct ProgramView {
    pub id: u32,
    pub capacity: u8,
    pub competitiveness: u32,
    pub ranking: Seq<(u32, u32)>,
}

impl ProgramView {
    /// The identifiers on the preference list, most preferred first.
    pub open spec fn ranked(self) -> Seq<u32> {
        Seq::new(self.ranking.len(), |i: int| self.ranking[i].0)
    }

    /// Where `applicant` stands on the preference list: the first position
    /// that names it, 0 being the best.
    pub open spec fn rank_of(self, applicant: u32) -> Option<int> {
        self.ranked().index_of_first(applicant)
    }

    /// `rank_of`, with an applicant that is not listed standing behind
    /// every listed one.
    pub open spec fn standing(self, applicant: u32) -> int {
        match self.rank_of(applicant) {
            Some(r) => r,
            None => self.ranking.len() as int,
        }
    }
}

impl View for Program {
    type V = ProgramView;

    open spec fn view(&self) -> ProgramView {
        ProgramView {
            id: self.id,
            capacity: self.capacity,
            competitiveness: self.competitiveness,
            ranking: self.ranking@,
        }
    }
}

impl Clone for Program {
    fn clone(&self) -> (copy: Program)
        ensures
            copy@ == self@,
    {
        let mut ranking: Vec<(u32, u32)> = Vec::new();
        let mut i: usize = 0;
        while i < self.ranking.len()
            invariant
                i <= self.ranking.len(),
                ranking@ == self.ranking@.take(i as int),
            decreases self.ranking.len() - i,
        {
            ranking.push(self.ranking[i]);
            assert(self.ranking@.take(i + 1) == self.ranking@.take(i as int).push(self.ranking@[i as int]));
            i += 1;
        }
        assert(self.ranking@.take(i as int) == self.ranking@);
        Program {
            id: self.id,
            capacity: self.capacity,
            competitiveness: self.competitiveness,
            ranking,
        }
    }
}

impl HasCapacity for Program {
    open spec fn capacity_view(&self) -> u8 {
        self.capacity
    }

    fn capacity(&self) -> (seats: u8) {
        self.capacity
    }
}

impl Program {
    /// The position of `applicant` on the preference list, 0 being the best.
    pub fn rank_position(&self, applicant: u32) -> (found: Option<usize>)
        ensures
            match found {
                Some(r) => self@.rank_of(applicant) == Some(r as int),
                None => self@.rank_of(applicant) is None,
            },
    {
        let mut i: usize = 0;
        while i < self.ranking.len()
            invariant
                i <= self.ranking.len(),
                forall|j: int| 0 <= j < i ==> self@.ranked()[j] != applicant,
            decreases self.ranking.len() - i,
        {
            if self.ranking[i].0 == applicant {
                proof {
                    assert(self@.ranked()[i as int] == applicant);
                    self@.ranked().index_of_first_ensures(applicant);
                }
                return Some(i);
            }
            i += 1;
        }
        proof {
            self@.ranked().index_of_first_ensures(applicant);
        }
        None
    }
}

/// The unit in which applicants arrive: one applicant alone, or an ordered
/// pair that is placed jointly.
pub struct Couple<A>(pub A, pub Option<A>);

impl<A: Clone> Clone for Couple<A> {
    fn clone(&self) -> Couple<A> {
        let second = match &self.1 {
            Some(b) => Some(b.clone()),
            None => None,
        };
        Couple(self.0.clone(), second)
    }
}

impl<A> From<(A, A)> for Couple<A> {
    fn from(couple: (A, A)) -> (unit: Couple<A>) {
        Couple(couple.0, Some(couple.1))
    }
}

impl<A> vstd::std_specs::convert::FromSpecImpl<(A, A)> for Couple<A> {
    open spec fn obeys_from_spec() -> bool {
        true
    }

    open spec fn from_spec(couple: (A, A)) -> Couple<A> {
        Couple(couple.0, Some(couple.1))
    }
}

impl<A> From<(A, Option<A>)> for Couple<A> {
    fn from(couple: (A, Option<A>)) -> (unit: Couple<A>) {
        Couple(couple.0, couple.1)
    }
}

impl<A> vstd::std_specs::convert::FromSpecImpl<(A, Option<A>)> for Couple<A> {
    open spec fn obeys_from_spec() -> bool {
        true
    }

    open spec fn from_spec(couple: (A, Option<A>)) -> Couple<A> {
        Couple(couple.0, couple.1)
    }
}

/// An arriving unit as plain values: the first applicant and, for a couple,
/// the second.
pub type UnitView = (ApplicantView, Option<ApplicantView>);

impl Couple<Applicant> {
    /// The unit as plain values.
    pub open spec fn unit_view(&self) -> UnitView {
        (
            self.0@,
            match self.1 {
                Some(b) => Some(b@),
                None => None,
            },
        )
    }
}

/// The arriving units of `units`, in order, as plain values.
pub open spec fn units_view(units: Seq<Couple<Applicant>>) -> Seq<UnitView> {
    Seq::new(units.len(), |i: int| units[i].unit_view())
}

/// The programs of `programs`, in order, as plain values.
pub open spec fn programs_view(programs: Seq<Program>) -> Seq<ProgramView> {
    Seq::new(programs.len(), |i: int| programs[i]@)
}

} // verus!
