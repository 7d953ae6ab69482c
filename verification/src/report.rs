//! What a finished match comes to, in numbers.

use vstd::prelude::*;
use crate::matcher::{Matcher, roster_view};
use crate::models::{Applicant, ApplicantView, Program, ProgramView};
use crate::placement::within_capacity;

verus! {

/// What is counted.
pub enum Tally {
    /// Every applicant.
    Everyone,
    /// The applicants that have a partner.
    Coupled,
    /// The applicants whose program is the first on their list.
    FirstChoice,
    /// The applicants with a partner whose program is the first on their
    /// list.
    CoupledFirstChoice,
}

/// Whether `program` is the first entry of the list of `a`.
pub open spec fn first_choice(a: ApplicantView, program: u32) -> bool {
    a.ranking.len() > 0 && a.ranking[0] == program
}

/// Whether `a`, held by `program`, is counted.
pub open spec fn counts_as(a: ApplicantView, program: u32, kind: Tally) -> bool {
    match kind {
        Tally::Everyone => true,
        Tally::Coupled => a.couple is Some,
        Tally::FirstChoice => first_choice(a, program),
        Tally::CoupledFirstChoice => a.couple is Some && first_choice(a, program),
    }
}

/// How many members of `roster`, held by `program`, are counted.
pub open spec fn counted(roster: Seq<ApplicantView>, program: u32, kind: Tally) -> nat
    decreases roster.len(),
{
    if roster.len() == 0 {
        0
    } else {
        counted(roster.drop_last(), program, kind) + if counts_as(roster.last(), program, kind) {
            1nat
        } else {
            0nat
        }
    }
}

/// How many members of all rosters of `matches` are counted.
pub open spec fn counted_all(matches: Seq<(ProgramView, Seq<ApplicantView>)>, kind: Tally) -> nat
    decreases matches.len(),
{
    if matches.len() == 0 {
        0
    } else {
        counted_all(matches.drop_last(), kind) + counted(matches.last().1, matches.last().0.id, kind)
    }
}

/// The numbers of a finished match.
pub struct MatchReport {
    /// Programs that hold at least one applicant.
    pub matched_programs: usize,
    /// Seats that nobody holds.
    pub unfilled_positions: u32,
    /// Applicants that hold a seat.
    pub matched_applicants: usize,
    /// Applicants without a seat.
    pub unmatched_applicants: usize,
    /// Applicants with a partner that hold a seat.
    pub matched_couples: usize,
    /// Applicants with a partner without a seat.
    pub unmatched_couples: usize,
    /// Applicants that hold a seat of the first program on their list.
    pub first_choice: usize,
    /// Applicants with a partner that hold a seat of the first program on
    /// their list.
    pub couples_first_choice: usize,
}

/// No more are counted than there are.
pub proof fn lemma_counted_bound(roster: Seq<ApplicantView>, program: u32, kind: Tally)
    ensures
        counted(roster, program, kind) <= roster.len(),
        counted(roster, program, Tally::Everyone) == roster.len(),
    decreases roster.len(),
{
    if roster.len() > 0 {
        lemma_counted_bound(roster.drop_last(), program, kind);
        lemma_counted_bound(roster.drop_last(), program, Tally::Everyone);
    }
}

/// Of the first `n` rosters no more are counted than of all, and of no kind
/// more than there are applicants.
pub proof fn lemma_counted_all_grows(matches: Seq<(ProgramView, Seq<ApplicantView>)>, kind: Tally, n: int)
    requires
        0 <= n <= matches.len(),
    ensures
        counted_all(matches.take(n), kind) <= counted_all(matches.take(n), Tally::Everyone),
        counted_all(matches.take(n), Tally::Everyone) <= counted_all(matches, Tally::Everyone),
    decreases matches.len() - n,
{
    lemma_counted_all_bound(matches.take(n), kind);
    if n < matches.len() {
        assert(matches.take(n + 1).drop_last() == matches.take(n));
        lemma_counted_all_grows(matches, kind, n + 1);
    } else {
        assert(matches.take(n) == matches);
    }
}

/// Of no kind more are counted than there are applicants.
pub proof fn lemma_counted_all_bound(matches: Seq<(ProgramView, Seq<ApplicantView>)>, kind: Tally)
    ensures
        counted_all(matches, kind) <= counted_all(matches, Tally::Everyone),
    decreases matches.len(),
{
    if matches.len() > 0 {
        lemma_counted_all_bound(matches.drop_last(), kind);
        lemma_counted_bound(matches.last().1, matches.last().0.id, kind);
    }
}

/// Counts the members of `roster`, held by `program`, of one kind.
pub fn count_in(roster: &Vec<&Applicant>, program: u32, kind: &Tally) -> (n: usize)
    ensures
        n == counted(roster_view(roster@), program, *kind),
        n <= roster@.len(),
{
    let ghost all = roster_view(roster@);
    let mut n: usize = 0;
    let mut i: usize = 0;
    while i < roster.len()
        invariant
            i <= roster@.len(),
            all == roster_view(roster@),
            n == counted(all.take(i as int), program, *kind),
            n <= i,
        decreases roster@.len() - i,
    {
        let a = roster[i];
        let first = a.ranking.len() > 0 && a.ranking[0] == program;
        let yes = match kind {
            Tally::Everyone => true,
            Tally::Coupled => a.couple.is_some(),
            Tally::FirstChoice => first,
            Tally::CoupledFirstChoice => a.couple.is_some() && first,
        };
        proof {
            assert(all.take(i + 1).drop_last() == all.take(i as int));
            assert(all.take(i + 1).last() == a@);
        }
        if yes {
            n += 1;
        }
        i += 1;
    }
    proof {
        assert(all.take(i as int) == all);
    }
    n
}

impl<'a> Matcher<'a> {
    /// Counts the roster members of one kind.
    pub fn count_matched(&self, kind: &Tally) -> (n: usize)
        requires
            counted_all(self.matches_view(), Tally::Everyone) <= usize::MAX,
        ensures
            n == counted_all(self.matches_view(), *kind),
    {
        let ghost held = self.matches_view();
        let mut n: usize = 0;
        let mut p: usize = 0;
        while p < self.matches.len()
            invariant
                p <= self.matches@.len(),
                held == self.matches_view(),
                counted_all(held, Tally::Everyone) <= usize::MAX,
                n == counted_all(held.take(p as int), *kind),
            decreases self.matches@.len() - p,
        {
            proof {
                assert(held.take(p + 1).drop_last() == held.take(p as int));
                assert(held.take(p + 1).last() == held[p as int]);
                lemma_counted_all_grows(held, *kind, p + 1);
            }
            let here = count_in(&self.matches[p].1, self.matches[p].0.id, kind);
            n = n + here;
            p += 1;
        }
        proof {
            assert(held.take(p as int) == held);
        }
        n
    }

    /// The numbers of the match that the matcher holds.
    pub fn report(&self) -> (numbers: MatchReport)
        requires
            within_capacity(self.matches_view()),
            self.open_seats() <= u32::MAX,
            counted_all(self.matches_view(), Tally::Everyone) <= usize::MAX,
        ensures
            numbers.matched_programs == self.matches@.len(),
            numbers.unfilled_positions == self.open_seats(),
            numbers.matched_applicants == counted_all(self.matches_view(), Tally::Everyone),
            numbers.unmatched_applicants == self.unmatched_a@.len(),
            numbers.matched_couples == counted_all(self.matches_view(), Tally::Coupled),
            numbers.unmatched_couples == counted(roster_view(self.unmatched_a@), 0, Tally::Coupled),
            numbers.first_choice == counted_all(self.matches_view(), Tally::FirstChoice),
            numbers.couples_first_choice == counted_all(self.matches_view(), Tally::CoupledFirstChoice),
    {
        MatchReport {
            matched_programs: self.matches.len(),
            unfilled_positions: self.unfilled_positions(),
            matched_applicants: self.count_matched(&Tally::Everyone),
            unmatched_applicants: self.unmatched_a.len(),
            matched_couples: self.count_matched(&Tally::Coupled),
            unmatched_couples: count_in(&self.unmatched_a, 0, &Tally::Coupled),
            first_choice: self.count_matched(&Tally::FirstChoice),
            couples_first_choice: self.count_matched(&Tally::CoupledFirstChoice),
        }
    }

    /// The first program that holds somebody, and where each member of its
    /// roster stands on its list, 0 being the best; `None` for a member
    /// that the program does not rank, or where no program holds anybody.
    pub fn sample(&self) -> (shown: Option<(&'a Program, Vec<Option<usize>>)>)
        ensures
            match shown {
                Some((program, places)) => {
                    &&& self.matches@.len() > 0
                    &&& program == self.matches@[0].0
                    &&& places@.len() == self.matches@[0].1@.len()
                    &&& forall|i: int|
                        0 <= i < places@.len() ==> match #[trigger] places@[i] {
                            Some(r) => program@.rank_of(self.matches@[0].1@[i].id) == Some(r as int),
                            None => program@.rank_of(self.matches@[0].1@[i].id) is None,
                        }
                },
                None => self.matches@.len() == 0,
            },
    {
        if self.matches.len() == 0 {
            return None;
        }
        let program = self.matches[0].0;
        let mut places: Vec<Option<usize>> = Vec::new();
        let mut i: usize = 0;
        while i < self.matches[0].1.len()
            invariant
                self.matches@.len() > 0,
                program == self.matches@[0].0,
                i <= self.matches@[0].1@.len(),
                places@.len() == i,
                forall|j: int|
                    0 <= j < i ==> match #[trigger] places@[j] {
                        Some(r) => program@.rank_of(self.matches@[0].1@[j].id) == Some(r as int),
                        None => program@.rank_of(self.matches@[0].1@[j].id) is None,
                    },
            decreases self.matches@[0].1@.len() - i,
        {
            places.push(program.rank_position(self.matches[0].1[i].id));
            i += 1;
        }
        Some((program, places))
    }
}

} // verus!
