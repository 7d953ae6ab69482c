//! The matcher: deferred acceptance over programs of any capacity, with
//! applicants that arrive alone or as couples.
//!
//! Applicants propose in arrival order. A program keeps whom it prefers among
//! those that proposed so far; whoever it lets go looks for a seat again, from
//! the top of its list, and a couple always moves as one.

use vstd::prelude::*;
use vstd::string::*;
use crate::models::{Applicant, ApplicantView, Couple, Program, ProgramView, programs_view, units_view};
use crate::notes::{missing_note, note_missing, note_unlisted, unlisted_note};
use crate::placement::{
    ApartOffer, Missing, Offer, Placed, Placement, Seat, Task, TogetherOffer, all_seats,
    apart_offer, displaced_pair, filled, find_program, joint_len, locate_partner, orderly,
    pair_choice, partner_in, partner_in_rosters, place, place_single, program_ids, ranks_all,
    resolve, run, settle, single_choice, single_offer, spare_seats, table_weight,
    together_offer, unfilled, vacant, weight_upto, within_capacity, worst_member,
};
use crate::atomicity::{law_couple_atomicity, law_well_placed, together, well_formed, well_placed};
use crate::conservation::{arrived, everyone, law_disjoint_placement, unit_members, waiting};
use crate::preference::{all_alone, content, law_nobody_envies};
use crate::laws::{
    lemma_all_seats_grow, lemma_enroll_orderly, lemma_filled_within_capacity, lemma_run_sound,
    lemma_spare_seats_grow, lemma_withdraw_orderly, lemma_worst_member_bound, sound,
};

verus! {

/// Why a match was given up.
#[derive(Debug)]
pub enum MatchError {
    /// A preference list names a program that is not in the table.
    ProgramNotFound(String),
    /// A roster holds an applicant that its program does not rank.
    ApplicantNotFound(String),
}

impl MatchError {
    /// The report as plain values.
    pub open spec fn text(&self) -> Seq<char> {
        match self {
            MatchError::ProgramNotFound(s) => "Program not found: "@ + s@,
            MatchError::ApplicantNotFound(s) => "Applicant not found: "@ + s@,
        }
    }

    /// The report in words.
    pub fn to_string(&self) -> (text: String)
        ensures
            text@ == self.text(),
    {
        match self {
            MatchError::ProgramNotFound(s) => String::from_str("Program not found: ").concat(
                s.as_str(),
            ),
            MatchError::ApplicantNotFound(s) => String::from_str("Applicant not found: ").concat(
                s.as_str(),
            ),
        }
    }
}

/// How many units may be placed on behalf of one arriving unit, the unit
/// itself and everyone it sets in motion: one more than the table weighs,
/// or as many as the machine can count where that is less. Whoever is still
/// waiting after that is recorded as unmatched.
pub open spec fn budget_of(programs: Seq<ProgramView>) -> nat {
    if table_weight(programs) < usize::MAX {
        (table_weight(programs) + 1) as nat
    } else {
        usize::MAX as nat
    }
}

/// The first programs of a table weigh no more than all of it.
pub proof fn lemma_weight_grows(programs: Seq<ProgramView>, n: int)
    requires
        0 <= n <= programs.len(),
    ensures
        0 <= weight_upto(programs, n) <= table_weight(programs),
    decreases programs.len() - n,
{
    if n < programs.len() {
        lemma_weight_grows(programs, n + 1);
        assert(0 <= programs[n].capacity * programs[n].ranking.len()) by (nonlinear_arith);
    }
    lemma_weight_bound(programs, n);
}

/// No table weighs less than nothing.
pub proof fn lemma_weight_bound(programs: Seq<ProgramView>, n: int)
    ensures
        0 <= weight_upto(programs, n),
    decreases n,
{
    if n > 0 {
        lemma_weight_bound(programs, n - 1);
        assert(0 <= programs[n - 1].capacity * programs[n - 1].ranking.len()) by (nonlinear_arith);
    }
}

/// Works out the budget of a cascade from the table of programs.
pub fn cascade_budget(programs: &Vec<Program>) -> (budget: usize)
    ensures
        budget == budget_of(programs_view(programs@)),
{
    let ghost table = programs_view(programs@);
    let mut total: u128 = 1;
    let mut i: usize = 0;
    while i < programs.len()
        invariant
            i <= programs@.len(),
            table == programs_view(programs@),
            total == 1 + weight_upto(table, i as int),
            total <= usize::MAX,
        decreases programs@.len() - i,
    {
        let seats = programs[i].capacity as u128;
        let entries = programs[i].ranking.len() as u128;
        assert(seats * entries <= 255 * 0xffff_ffff_ffff_ffff) by (nonlinear_arith)
            requires
                seats <= 255,
                entries <= 0xffff_ffff_ffff_ffff,
        ;
        let more: u128 = seats * entries;
        proof {
            assert(table[i as int] == programs@[i as int]@);
            lemma_weight_grows(table, i + 1);
        }
        if total + more > usize::MAX as u128 {
            return usize::MAX;
        }
        total = total + more;
        i += 1;
    }
    total as usize
}

/// The members of a roster as plain values.
pub open spec fn roster_view(members: Seq<&Applicant>) -> Seq<ApplicantView> {
    Seq::new(members.len(), |i: int| members[i]@)
}

/// The index of the first member of `roster` that `p` does not rank, the
/// member at index `skip` left aside.
pub open spec fn first_unlisted(p: ProgramView, roster: Seq<ApplicantView>, skip: int) -> Option<int>
    decreases roster.len(),
{
    if roster.len() == 0 {
        None
    } else {
        let last = roster.len() - 1;
        match first_unlisted(p, roster.drop_last(), skip) {
            Some(i) => Some(i),
            None => if last != skip && p.rank_of(roster[last].id) is None {
                Some(last)
            } else {
                None
            },
        }
    }
}

/// Where every member is ranked, none is unlisted.
pub proof fn lemma_ranked_none_unlisted(p: ProgramView, roster: Seq<ApplicantView>, skip: int)
    requires
        ranks_all(p, roster),
    ensures
        first_unlisted(p, roster, skip) is None,
    decreases roster.len(),
{
    if roster.len() > 0 {
        let front = roster.drop_last();
        assert forall|i: int| 0 <= i < front.len() implies (#[trigger] p.rank_of(front[i].id)) is Some by {
            assert(front[i] == roster[i]);
        }
        lemma_ranked_none_unlisted(p, front, skip);
        assert(p.rank_of(roster[roster.len() - 1].id) is Some);
    }
}

/// The index to leave aside as a number: -1 for none.
pub open spec fn skip_index(skip: Option<usize>) -> int {
    match skip {
        Some(s) => s as int,
        None => -1,
    }
}

/// Finds the weakest member of `roster` in the eyes of `program`, the member
/// at index `skip` left aside, and its position on the program's list.
///
/// Fails on the first member that the program does not rank.
pub fn weakest_member(program: &Program, roster: &Vec<&Applicant>, skip: Option<usize>) -> (found:
    Result<Option<(usize, usize)>, MatchError>)
    ensures
        match first_unlisted(program@, roster_view(roster@), skip_index(skip)) {
            Some(i) => found matches Err(MatchError::ApplicantNotFound(s)) && s@ == unlisted_note(
                roster_view(roster@)[i].id,
            ),
            None => found matches Ok(best) && match best {
                Some((w, rank)) => {
                    &&& w == worst_member(program@, roster_view(roster@), skip_index(skip))
                    &&& w < roster.len()
                    &&& program@.rank_of(roster_view(roster@)[w as int].id) == Some(rank as int)
                },
                None => worst_member(program@, roster_view(roster@), skip_index(skip)) == -1,
            },
        },
{
    let ghost p = program@;
    let ghost all = roster_view(roster@);
    let ghost sk = skip_index(skip);
    let mut best: Option<(usize, usize)> = None;
    let mut i: usize = 0;
    while i < roster.len()
        invariant
            i <= roster.len(),
            p == program@,
            all == roster_view(roster@),
            sk == skip_index(skip),
            first_unlisted(p, all.take(i as int), sk) is None,
            match best {
                Some((w, rank)) => {
                    &&& w == worst_member(p, all.take(i as int), sk)
                    &&& w < i
                    &&& p.rank_of(all[w as int].id) == Some(rank as int)
                },
                None => worst_member(p, all.take(i as int), sk) == -1,
            },
        decreases roster.len() - i,
    {
        proof {
            assert(all.take(i + 1).drop_last() == all.take(i as int));
            assert(all.take(i + 1)[i as int] == all[i as int]);
        }
        let skipped = match skip {
            Some(s) => s == i,
            None => false,
        };
        if !skipped {
            let member = roster[i];
            match program.rank_position(member.id) {
                None => {
                    proof {
                        lemma_first_unlisted_grows(p, all, sk, i as int + 1);
                    }
                    return Err(MatchError::ApplicantNotFound(note_unlisted(member.id)));
                },
                Some(rank) => {
                    let weaker = match best {
                        Some((w, worst)) => {
                            proof {
                                assert(all.take(i + 1)[w as int] == all[w as int]);
                            }
                            rank > worst
                        },
                        None => true,
                    };
                    if weaker {
                        best = Some((i, rank));
                    }
                },
            }
        } else {
            proof {
                if let Some((w, worst)) = best {
                    assert(all.take(i + 1)[w as int] == all[w as int]);
                }
            }
        }
        i += 1;
    }
    proof {
        assert(all.take(i as int) == all);
    }
    Ok(best)
}

/// An unlisted member among the first `n` is the first unlisted member of
/// the whole roster.
proof fn lemma_first_unlisted_grows(p: ProgramView, roster: Seq<ApplicantView>, skip: int, n: int)
    requires
        0 <= n <= roster.len(),
        first_unlisted(p, roster.take(n), skip) is Some,
    ensures
        first_unlisted(p, roster, skip) == first_unlisted(p, roster.take(n), skip),
        first_unlisted(p, roster, skip).unwrap() < n,
        roster.take(n)[first_unlisted(p, roster, skip).unwrap()] == roster[first_unlisted(
            p,
            roster,
            skip,
        ).unwrap()],
    decreases roster.len() - n,
{
    lemma_first_unlisted_bound(p, roster.take(n), skip);
    if n < roster.len() {
        assert(roster.take(n + 1).drop_last() == roster.take(n));
        lemma_first_unlisted_grows(p, roster, skip, n + 1);
    } else {
        assert(roster.take(n) == roster);
    }
}

/// The first unlisted member is a member.
proof fn lemma_first_unlisted_bound(p: ProgramView, roster: Seq<ApplicantView>, skip: int)
    ensures
        first_unlisted(p, roster, skip) matches Some(i) ==> 0 <= i < roster.len() && i != skip
            && p.rank_of(roster[i].id) is None,
    decreases roster.len(),
{
    if roster.len() > 0 {
        lemma_first_unlisted_bound(p, roster.drop_last(), skip);
    }
}

/// The executable form of [`Offer`].
pub enum SingleBid {
    Pass,
    Open,
    Displace(usize),
}

impl View for SingleBid {
    type V = Offer;

    open spec fn view(&self) -> Offer {
        match self {
            SingleBid::Pass => Offer::Pass,
            SingleBid::Open => Offer::Open,
            SingleBid::Displace(w) => Offer::Displace(*w as int),
        }
    }
}

/// The executable form of [`TogetherOffer`].
pub enum TogetherBid {
    Pass,
    Open,
    DisplaceOne(usize),
    DisplaceTwo(usize, usize),
}

impl View for TogetherBid {
    type V = TogetherOffer;

    open spec fn view(&self) -> TogetherOffer {
        match self {
            TogetherBid::Pass => TogetherOffer::Pass,
            TogetherBid::Open => TogetherOffer::Open,
            TogetherBid::DisplaceOne(w) => TogetherOffer::DisplaceOne(*w as int),
            TogetherBid::DisplaceTwo(w1, w2) => TogetherOffer::DisplaceTwo(*w1 as int, *w2 as int),
        }
    }
}

/// The executable form of [`ApartOffer`].
pub enum ApartBid {
    Pass,
    Open,
    Displace(usize, usize),
}

impl View for ApartBid {
    type V = ApartOffer;

    open spec fn view(&self) -> ApartOffer {
        match self {
            ApartBid::Pass => ApartOffer::Pass,
            ApartBid::Open => ApartOffer::Open,
            ApartBid::Displace(w0, w1) => ApartOffer::Displace(*w0 as int, *w1 as int),
        }
    }
}

/// What `program`, holding `roster`, answers to `a` applying alone.
fn single_bid(program: &Program, roster: &Vec<&Applicant>, a: &Applicant) -> (bid: Result<
    SingleBid,
    MatchError,
>)
    requires
        ranks_all(program@, roster_view(roster@)),
    ensures
        bid matches Ok(b) && b@ == single_offer(program@, roster_view(roster@), a@) && (b matches SingleBid::Displace(
            w,
        ) ==> w < roster@.len()),
{
    proof {
        lemma_ranked_none_unlisted(program@, roster_view(roster@), -1);
    }
    match program.rank_position(a.id) {
        None => Ok(SingleBid::Pass),
        Some(r) => {
            if program.capacity == 0 {
                Ok(SingleBid::Pass)
            } else if roster.len() < program.capacity as usize {
                Ok(SingleBid::Open)
            } else {
                match weakest_member(program, roster, None)? {
                    Some((w, worst)) => if r < worst {
                        Ok(SingleBid::Displace(w))
                    } else {
                        Ok(SingleBid::Pass)
                    },
                    None => Ok(SingleBid::Pass),
                }
            }
        },
    }
}

/// What `program`, holding `roster`, answers to the couple `a`, `b` asking
/// for two of its seats.
fn together_bid(program: &Program, roster: &Vec<&Applicant>, a: &Applicant, b: &Applicant) -> (bid:
    Result<TogetherBid, MatchError>)
    requires
        ranks_all(program@, roster_view(roster@)),
    ensures
        bid matches Ok(t) && t@ == together_offer(program@, roster_view(roster@), a@, b@) && match t {
            TogetherBid::DisplaceOne(w) => w < roster@.len(),
            TogetherBid::DisplaceTwo(w1, w2) => w1 < roster@.len() && w2 < roster@.len() && w1 != w2,
            _ => true,
        },
{
    proof {
        lemma_ranked_none_unlisted(program@, roster_view(roster@), -1);
    }
    let ra = match program.rank_position(a.id) {
        Some(r) => r,
        None => {
            return Ok(TogetherBid::Pass);
        },
    };
    let rb = match program.rank_position(b.id) {
        Some(r) => r,
        None => {
            return Ok(TogetherBid::Pass);
        },
    };
    if program.capacity < 2 {
        return Ok(TogetherBid::Pass);
    }
    let seats = program.capacity as usize;
    if roster.len() <= seats - 2 {
        return Ok(TogetherBid::Open);
    }
    let (w1, worst) = match weakest_member(program, roster, None)? {
        Some(found) => found,
        None => {
            return Ok(TogetherBid::Pass);
        },
    };
    if roster.len() == seats - 1 {
        if ra < worst && rb < worst {
            return Ok(TogetherBid::DisplaceOne(w1));
        }
        return Ok(TogetherBid::Pass);
    }
    proof {
        lemma_ranked_none_unlisted(program@, roster_view(roster@), w1 as int);
        lemma_worst_member_bound(program@, roster_view(roster@), w1 as int);
    }
    match weakest_member(program, roster, Some(w1))? {
        Some((w2, next)) => if ra < next && rb < next {
            Ok(TogetherBid::DisplaceTwo(w1, w2))
        } else {
            Ok(TogetherBid::Pass)
        },
        None => Ok(TogetherBid::Pass),
    }
}

/// What `p0`, holding `r0`, and `p1`, holding `r1`, answer to the couple
/// `a`, `b`, where `a` asks for a seat of `p0` and `b` for one of `p1`.
fn apart_bid(
    p0: &Program,
    r0: &Vec<&Applicant>,
    p1: &Program,
    r1: &Vec<&Applicant>,
    a: &Applicant,
    b: &Applicant,
) -> (bid: Result<ApartBid, MatchError>)
    requires
        ranks_all(p0@, roster_view(r0@)),
        ranks_all(p1@, roster_view(r1@)),
    ensures
        bid matches Ok(t) && t@ == apart_offer(p0@, roster_view(r0@), p1@, roster_view(r1@), a@, b@)
            && (t matches ApartBid::Displace(w0, w1) ==> w0 < r0@.len() && w1 < r1@.len()),
{
    proof {
        lemma_ranked_none_unlisted(p0@, roster_view(r0@), -1);
        lemma_ranked_none_unlisted(p1@, roster_view(r1@), -1);
    }
    let ra = match p0.rank_position(a.id) {
        Some(r) => r,
        None => {
            return Ok(ApartBid::Pass);
        },
    };
    let rb = match p1.rank_position(b.id) {
        Some(r) => r,
        None => {
            return Ok(ApartBid::Pass);
        },
    };
    if p0.capacity == 0 || p1.capacity == 0 {
        return Ok(ApartBid::Pass);
    }
    if r0.len() < p0.capacity as usize && r1.len() < p1.capacity as usize {
        return Ok(ApartBid::Open);
    }
    let (w0, worst0) = match weakest_member(p0, r0, None)? {
        Some(found) => found,
        None => {
            return Ok(ApartBid::Pass);
        },
    };
    let (w1, worst1) = match weakest_member(p1, r1, None)? {
        Some(found) => found,
        None => {
            return Ok(ApartBid::Pass);
        },
    };
    if ra < worst0 && rb < worst1 {
        Ok(ApartBid::Displace(w0, w1))
    } else {
        Ok(ApartBid::Pass)
    }
}

/// Work that is waiting while a cascade is worked off.
pub enum Pending<'a> {
    /// A unit to place.
    Arrive(&'a Applicant, Option<&'a Applicant>),
    /// A displaced applicant, and the programs in whose rosters its partner
    /// is looked for first.
    Retry(&'a Applicant, usize, usize),
}

impl<'a> View for Pending<'a> {
    type V = Task;

    open spec fn view(&self) -> Task {
        match self {
            Pending::Arrive(a, b) => Task::Arrive(
                a@,
                match b {
                    Some(b) => Some(b@),
                    None => None,
                },
            ),
            Pending::Retry(who, n0, n1) => Task::Retry { who: who@, near: (*n0 as int, *n1 as int) },
        }
    }
}

/// The waiting work as plain values, the next task last.
pub open spec fn tasks_view(pending: Seq<Pending<'_>>) -> Seq<Task> {
    Seq::new(pending.len(), |i: int| pending[i]@)
}

/// The partner of a unit as plain values.
pub open spec fn partner_view(couple: Option<&Applicant>) -> Option<ApplicantView> {
    match couple {
        Some(b) => Some(b@),
        None => None,
    }
}

/// Whether `x` names `y` as its partner.
fn names_partner(x: &Applicant, y: &Applicant) -> (named: bool)
    ensures
        named == (x@.couple == Some(y@.id)),
{
    match x.couple {
        Some(c) => c == y.id,
        None => false,
    }
}

/// Records the work that `first` and `second` leave behind, displaced in one
/// step.
fn push_displaced<'a>(
    pending: &mut Vec<Pending<'a>>,
    first: &'a Applicant,
    second: &'a Applicant,
    near0: usize,
    near1: usize,
)
    ensures
        tasks_view(final(pending)@) == tasks_view(old(pending)@) + displaced_pair(
            first@,
            second@,
            (near0 as int, near1 as int),
        ),
{
    if names_partner(first, second) && names_partner(second, first) {
        pending.push(Pending::Arrive(first, Some(second)));
    } else {
        pending.push(Pending::Retry(second, near0, near1));
        pending.push(Pending::Retry(first, near0, near1));
    }
    proof {
        assert(tasks_view(final(pending)@) =~= tasks_view(old(pending)@) + displaced_pair(
            first@,
            second@,
            (near0 as int, near1 as int),
        ));
    }
}

/// The index of the first member of `group` that names `id` as its partner.
fn partner_index(group: &Vec<&Applicant>, id: u32) -> (found: Option<usize>)
    ensures
        match found {
            Some(i) => i < group@.len() && partner_in(roster_view(group@), id) == Some(i as int),
            None => partner_in(roster_view(group@), id) is None,
        },
{
    let ghost links = Seq::new(roster_view(group@).len(), |i: int| roster_view(group@)[i].couple);
    let mut i: usize = 0;
    while i < group.len()
        invariant
            i <= group@.len(),
            links == Seq::new(roster_view(group@).len(), |i: int| roster_view(group@)[i].couple),
            forall|j: int| 0 <= j < i ==> links[j] != Some(id),
        decreases group@.len() - i,
    {
        let named = match group[i].couple {
            Some(c) => c == id,
            None => false,
        };
        if named {
            proof {
                assert(links[i as int] == Some(id));
                links.index_of_first_ensures(Some(id));
            }
            return Some(i);
        }
        i += 1;
    }
    proof {
        links.index_of_first_ensures(Some(id));
    }
    None
}

/// The matcher and, after a run, its result.
///
/// While a match runs, `matches` holds every program of the table with its
/// roster. After [`Matcher::run_match`] it holds the programs that keep at
/// least one applicant, `unmatched_p` those that keep none, and `unmatched_a`
/// the applicants without a seat.
pub struct Matcher<'a> {
    pub matches: Vec<(&'a Program, Vec<&'a Applicant>)>,
    pub unmatched_a: Vec<&'a Applicant>,
    pub unmatched_p: Vec<&'a Program>,
}

impl<'a> Matcher<'a> {
    /// The programs of `matches`, in order.
    pub open spec fn programs(&self) -> Seq<ProgramView> {
        Seq::new(self.matches@.len(), |p: int| self.matches@[p].0@)
    }

    /// The rosters of `matches`, in order.
    pub open spec fn rosters(&self) -> Seq<Seq<ApplicantView>> {
        Seq::new(self.matches@.len(), |p: int| roster_view(self.matches@[p].1@))
    }

    /// The tentative assignment that the matcher holds.
    pub open spec fn placement(&self) -> Placement {
        Placement { rosters: self.rosters(), unmatched: roster_view(self.unmatched_a@) }
    }

    /// The programs with their rosters, as plain values.
    pub open spec fn matches_view(&self) -> Seq<(ProgramView, Seq<ApplicantView>)> {
        Seq::new(self.matches@.len(), |p: int| (self.matches@[p].0@, roster_view(self.matches@[p].1@)))
    }

    /// The programs without an applicant, as plain values.
    pub open spec fn unmatched_p_view(&self) -> Seq<ProgramView> {
        Seq::new(self.unmatched_p@.len(), |p: int| self.unmatched_p@[p]@)
    }

    /// Every roster member is ranked by the program that keeps it.
    pub open spec fn orderly(&self) -> bool {
        orderly(self.programs(), self.rosters())
    }

    /// A matcher that holds nothing.
    pub fn new() -> (matcher: Matcher<'a>)
        ensures
            matcher.matches@.len() == 0,
            matcher.unmatched_a@.len() == 0,
            matcher.unmatched_p@.len() == 0,
    {
        Matcher { matches: Vec::new(), unmatched_a: Vec::new(), unmatched_p: Vec::new() }
    }

    /// Forgets everything a previous run left.
    fn clear(&mut self)
        ensures
            final(self).matches@.len() == 0,
            final(self).unmatched_a@.len() == 0,
            final(self).unmatched_p@.len() == 0,
    {
        self.matches.clear();
        self.unmatched_a.clear();
        self.unmatched_p.clear();
    }

    /// The index of the first program of the table with identifier `id`.
    fn find(&self, id: u32) -> (found: Option<usize>)
        ensures
            match found {
                Some(p) => {
                    &&& p < self.matches@.len()
                    &&& find_program(self.programs(), id) == Some(p as int)
                    &&& self.programs()[p as int].id == id
                },
                None => find_program(self.programs(), id) is None,
            },
    {
        let ghost ids = program_ids(self.programs());
        let mut p: usize = 0;
        while p < self.matches.len()
            invariant
                p <= self.matches@.len(),
                ids == program_ids(self.programs()),
                forall|q: int| 0 <= q < p ==> ids[q] != id,
            decreases self.matches@.len() - p,
        {
            if self.matches[p].0.id == id {
                proof {
                    assert(ids[p as int] == id);
                    ids.index_of_first_ensures(id);
                }
                return Some(p);
            }
            p += 1;
        }
        proof {
            ids.index_of_first_ensures(id);
        }
        None
    }

    /// `applicant` joins the roster of program `p`.
    fn enroll(&mut self, p: usize, applicant: &'a Applicant)
        requires
            p < old(self).rosters().len(),
        ensures
            final(self).programs() == old(self).programs(),
            final(self).placement() == old(self).placement().enroll(p as int, applicant@),
            final(self).unmatched_p == old(self).unmatched_p,
    {
        self.matches[p].1.push(applicant);
        proof {
            let before = old(self).rosters();
            let after = final(self).rosters();
            assert(after[p as int] =~= before[p as int].push(applicant@));
            assert(after =~= before.update(p as int, before[p as int].push(applicant@)));
            assert(final(self).programs() =~= old(self).programs());
        }
    }

    /// The member at index `i` leaves the roster of program `p`.
    fn withdraw(&mut self, p: usize, i: usize) -> (member: &'a Applicant)
        requires
            p < old(self).rosters().len(),
            i < old(self).rosters()[p as int].len(),
        ensures
            final(self).programs() == old(self).programs(),
            final(self).placement() == old(self).placement().withdraw(p as int, i as int),
            final(self).unmatched_p == old(self).unmatched_p,
            member@ == old(self).rosters()[p as int][i as int],
    {
        let member = self.matches[p].1.remove(i);
        proof {
            let before = old(self).rosters();
            let after = final(self).rosters();
            assert(after[p as int] =~= before[p as int].remove(i as int));
            assert(after =~= before.update(p as int, before[p as int].remove(i as int)));
            assert(final(self).programs() =~= old(self).programs());
        }
        member
    }

    /// `applicant` joins the unmatched.
    fn shelve(&mut self, applicant: &'a Applicant)
        ensures
            final(self).programs() == old(self).programs(),
            final(self).placement() == old(self).placement().shelve(applicant@),
            final(self).unmatched_p == old(self).unmatched_p,
    {
        self.unmatched_a.push(applicant);
        proof {
            assert(roster_view(final(self).unmatched_a@) =~= roster_view(old(self).unmatched_a@).push(
                applicant@,
            ));
            assert(final(self).rosters() =~= old(self).rosters());
            assert(final(self).programs() =~= old(self).programs());
        }
    }

    /// Places an applicant that applies alone. It walks its list from the
    /// top and takes the first seat that is free or held by someone the
    /// program likes less; whom it displaces is recorded in `pending`. With
    /// no such seat it joins the unmatched.
    fn attempt_single_match(&mut self, applicant: &'a Applicant, pending: &mut Vec<Pending<'a>>) -> (done:
        Result<(), MatchError>)
        requires
            old(self).orderly(),
        ensures
            final(self).programs() == old(self).programs(),
            final(self).unmatched_p == old(self).unmatched_p,
            match place_single(old(self).programs(), old(self).placement(), applicant@) {
                Placed::Missing(m) => {
                    &&& done matches Err(MatchError::ProgramNotFound(s)) && s@ == missing_note(m)
                    &&& *final(self) == *old(self)
                    &&& *final(pending) == *old(pending)
                },
                Placed::Done { state, displaced } => {
                    &&& done is Ok
                    &&& final(self).placement() == state
                    &&& tasks_view(final(pending)@) == tasks_view(old(pending)@) + displaced
                    &&& final(self).orderly()
                    &&& sound(old(self).programs(), old(self).rosters()) ==> sound(
                        final(self).programs(),
                        final(self).rosters(),
                    )
                    &&& everyone(final(self).placement()).add(waiting(displaced)) == everyone(
                        old(self).placement(),
                    ).insert(applicant@)
                },
            },
    {
        let ghost programs = self.programs();
        let ghost st = self.placement();
        proof {
            law_well_placed(programs, st, applicant@, None);
        }
        let mut k: usize = 0;
        while k < applicant.ranking.len()
            invariant
                k <= applicant.ranking@.len(),
                *self == *old(self),
                *pending == *old(pending),
                programs == self.programs(),
                st == self.placement(),
                self.orderly(),
                well_placed(programs, st, applicant@, None),
                single_choice(programs, st.rosters, applicant@, k as int) == single_choice(
                    programs,
                    st.rosters,
                    applicant@,
                    0,
                ),
            decreases applicant.ranking@.len() - k,
        {
            let id = applicant.ranking[k];
            let p = match self.find(id) {
                Some(p) => p,
                None => {
                    return Err(MatchError::ProgramNotFound(note_missing(id, &Seat::Single)));
                },
            };
            proof {
                assert(ranks_all(programs[p as int], st.rosters[p as int]));
            }
            match single_bid(self.matches[p].0, &self.matches[p].1, applicant)? {
                SingleBid::Pass => {},
                SingleBid::Open => {
                    self.enroll(p, applicant);
                    proof {
                        lemma_enroll_orderly(programs, st, p as int, applicant@);
                        assert(tasks_view(pending@) =~= tasks_view(old(pending)@) + Seq::<Task>::empty());
                    }
                    return Ok(());
                },
                SingleBid::Displace(w) => {
                    let out = self.withdraw(p, w);
                    self.enroll(p, applicant);
                    pending.push(Pending::Retry(out, p, p));
                    proof {
                        lemma_withdraw_orderly(programs, st, p as int, w as int);
                        lemma_enroll_orderly(programs, st.withdraw(p as int, w as int), p as int, applicant@);
                        assert(tasks_view(pending@) =~= tasks_view(old(pending)@) + seq![
                            Task::Retry { who: st.rosters[p as int][w as int], near: (p as int, p as int) },
                        ]);
                    }
                    return Ok(());
                },
            }
            k += 1;
        }
        self.shelve(applicant);
        proof {
            assert(tasks_view(pending@) =~= tasks_view(old(pending)@) + Seq::<Task>::empty());
        }
        Ok(())
    }

    /// Places a unit. A couple walks its joint list from the top and takes
    /// the first pair of seats that is free or held by applicants the
    /// programs like less than both; whom it displaces is recorded in
    /// `pending`. With no such pair both join the unmatched.
    fn attempt_couples_match(
        &mut self,
        applicant: &'a Applicant,
        couple: Option<&'a Applicant>,
        pending: &mut Vec<Pending<'a>>,
    ) -> (done: Result<(), MatchError>)
        requires
            old(self).orderly(),
        ensures
            final(self).programs() == old(self).programs(),
            final(self).unmatched_p == old(self).unmatched_p,
            match place(old(self).programs(), old(self).placement(), applicant@, partner_view(couple)) {
                Placed::Missing(m) => {
                    &&& done matches Err(MatchError::ProgramNotFound(s)) && s@ == missing_note(m)
                    &&& *final(self) == *old(self)
                    &&& *final(pending) == *old(pending)
                },
                Placed::Done { state, displaced } => {
                    &&& done is Ok
                    &&& final(self).placement() == state
                    &&& tasks_view(final(pending)@) == tasks_view(old(pending)@) + displaced
                    &&& final(self).orderly()
                    &&& sound(old(self).programs(), old(self).rosters()) ==> sound(
                        final(self).programs(),
                        final(self).rosters(),
                    )
                    &&& everyone(final(self).placement()).add(waiting(displaced)) == everyone(
                        old(self).placement(),
                    ).add(unit_members(applicant@, partner_view(couple)))
                    &&& couple matches Some(b) ==> together(
                        final(self).programs(),
                        final(self).placement(),
                        applicant@,
                        b@,
                    )
                },
            },
    {
        proof {
            law_well_placed(self.programs(), self.placement(), applicant@, partner_view(couple));
        }
        let partner = match couple {
            None => {
                return self.attempt_single_match(applicant, pending);
            },
            Some(b) => b,
        };
        let ghost programs = self.programs();
        let ghost st = self.placement();
        let len = if applicant.ranking.len() <= partner.ranking.len() {
            applicant.ranking.len()
        } else {
            partner.ranking.len()
        };
        let mut k: usize = 0;
        while k < len
            invariant
                k <= len,
                len == joint_len(applicant@, partner@),
                couple == Some(partner),
                *self == *old(self),
                *pending == *old(pending),
                programs == self.programs(),
                st == self.placement(),
                self.orderly(),
                well_placed(programs, st, applicant@, Some(partner@)),
                pair_choice(programs, st.rosters, applicant@, partner@, k as int) == pair_choice(
                    programs,
                    st.rosters,
                    applicant@,
                    partner@,
                    0,
                ),
            decreases len - k,
        {
            let id0 = applicant.ranking[k];
            let id1 = partner.ranking[k];
            let p0 = match self.find(id0) {
                Some(p) => p,
                None => {
                    return Err(MatchError::ProgramNotFound(note_missing(id0, &Seat::First)));
                },
            };
            proof {
                assert(ranks_all(programs[p0 as int], st.rosters[p0 as int]));
            }
            if id0 == id1 {
                match together_bid(self.matches[p0].0, &self.matches[p0].1, applicant, partner)? {
                    TogetherBid::Pass => {},
                    TogetherBid::Open => {
                        self.enroll(p0, applicant);
                        self.enroll(p0, partner);
                        proof {
                            lemma_enroll_orderly(programs, st, p0 as int, applicant@);
                            lemma_enroll_orderly(programs, st.enroll(p0 as int, applicant@), p0 as int, partner@);
                            assert(tasks_view(pending@) =~= tasks_view(old(pending)@) + Seq::<Task>::empty());
                        }
                        return Ok(());
                    },
                    TogetherBid::DisplaceOne(w) => {
                        let out = self.withdraw(p0, w);
                        self.enroll(p0, applicant);
                        self.enroll(p0, partner);
                        pending.push(Pending::Retry(out, p0, p0));
                        proof {
                            let s1 = st.withdraw(p0 as int, w as int);
                            lemma_withdraw_orderly(programs, st, p0 as int, w as int);
                            lemma_enroll_orderly(programs, s1, p0 as int, applicant@);
                            lemma_enroll_orderly(programs, s1.enroll(p0 as int, applicant@), p0 as int, partner@);
                            assert(tasks_view(pending@) =~= tasks_view(old(pending)@) + seq![
                                Task::Retry {
                                    who: st.rosters[p0 as int][w as int],
                                    near: (p0 as int, p0 as int),
                                },
                            ]);
                        }
                        return Ok(());
                    },
                    TogetherBid::DisplaceTwo(w1, w2) => {
                        let first = self.matches[p0].1[w1];
                        let second = self.matches[p0].1[w2];
                        let hi = if w1 < w2 {
                            w2
                        } else {
                            w1
                        };
                        let lo = if w1 < w2 {
                            w1
                        } else {
                            w2
                        };
                        self.withdraw(p0, hi);
                        self.withdraw(p0, lo);
                        self.enroll(p0, applicant);
                        self.enroll(p0, partner);
                        push_displaced(pending, first, second, p0, p0);
                        proof {
                            let s1 = st.withdraw(p0 as int, hi as int);
                            let s2 = s1.withdraw(p0 as int, lo as int);
                            lemma_withdraw_orderly(programs, st, p0 as int, hi as int);
                            lemma_withdraw_orderly(programs, s1, p0 as int, lo as int);
                            lemma_enroll_orderly(programs, s2, p0 as int, applicant@);
                            lemma_enroll_orderly(programs, s2.enroll(p0 as int, applicant@), p0 as int, partner@);
                        }
                        return Ok(());
                    },
                }
            } else {
                let p1 = match self.find(id1) {
                    Some(p) => p,
                    None => {
                        return Err(MatchError::ProgramNotFound(note_missing(id1, &Seat::Second)));
                    },
                };
                proof {
                    assert(ranks_all(programs[p1 as int], st.rosters[p1 as int]));
                }
                match apart_bid(
                    self.matches[p0].0,
                    &self.matches[p0].1,
                    self.matches[p1].0,
                    &self.matches[p1].1,
                    applicant,
                    partner,
                )? {
                    ApartBid::Pass => {},
                    ApartBid::Open => {
                        self.enroll(p0, applicant);
                        self.enroll(p1, partner);
                        proof {
                            lemma_enroll_orderly(programs, st, p0 as int, applicant@);
                            lemma_enroll_orderly(programs, st.enroll(p0 as int, applicant@), p1 as int, partner@);
                            assert(tasks_view(pending@) =~= tasks_view(old(pending)@) + Seq::<Task>::empty());
                        }
                        return Ok(());
                    },
                    ApartBid::Displace(w0, w1) => {
                        let first = self.withdraw(p0, w0);
                        let second = self.withdraw(p1, w1);
                        self.enroll(p0, applicant);
                        self.enroll(p1, partner);
                        push_displaced(pending, first, second, p0, p1);
                        proof {
                            let s1 = st.withdraw(p0 as int, w0 as int);
                            let s2 = s1.withdraw(p1 as int, w1 as int);
                            lemma_withdraw_orderly(programs, st, p0 as int, w0 as int);
                            lemma_withdraw_orderly(programs, s1, p1 as int, w1 as int);
                            lemma_enroll_orderly(programs, s2, p0 as int, applicant@);
                            lemma_enroll_orderly(programs, s2.enroll(p0 as int, applicant@), p1 as int, partner@);
                        }
                        return Ok(());
                    },
                }
            }
            k += 1;
        }
        self.shelve(applicant);
        self.shelve(partner);
        proof {
            assert(tasks_view(pending@) =~= tasks_view(old(pending)@) + Seq::<Task>::empty());
        }
        Ok(())
    }

    /// Looks for the partner of the displaced applicant `who` and takes it
    /// out of the assignment, so that the two can be placed as one: out of
    /// the rosters `near0` and `near1` first, then out of any roster, then
    /// out of the unmatched. Where `who` has no partner, or the partner is
    /// in none of these places, nothing changes and `who` goes on alone.
    fn retry_match(&mut self, who: &'a Applicant, near0: usize, near1: usize) -> (partner: Option<
        &'a Applicant,
    >)
        requires
            old(self).orderly(),
        ensures
            final(self).programs() == old(self).programs(),
            final(self).unmatched_p == old(self).unmatched_p,
            final(self).orderly(),
            ({
                let unit = resolve(
                    old(self).placement(),
                    Task::Retry { who: who@, near: (near0 as int, near1 as int) },
                );
                final(self).placement() == unit.state && who@ == unit.first && partner_view(partner)
                    == unit.second
            }),
    {
        let ghost programs = self.programs();
        let ghost st = self.placement();
        if who.couple.is_none() {
            return None;
        }
        if near0 < self.matches.len() {
            if let Some(i) = partner_index(&self.matches[near0].1, who.id) {
                proof {
                    lemma_withdraw_orderly(programs, st, near0 as int, i as int);
                }
                return Some(self.withdraw(near0, i));
            }
        }
        if near1 < self.matches.len() {
            if let Some(i) = partner_index(&self.matches[near1].1, who.id) {
                proof {
                    lemma_withdraw_orderly(programs, st, near1 as int, i as int);
                }
                return Some(self.withdraw(near1, i));
            }
        }
        let mut p: usize = 0;
        while p < self.matches.len()
            invariant
                p <= self.matches@.len(),
                *self == *old(self),
                programs == self.programs(),
                st == self.placement(),
                self.orderly(),
                who.couple is Some,
                locate_partner(st.rosters, who.id, (near0 as int, near1 as int)) == partner_in_rosters(
                    st.rosters,
                    who.id,
                    p as int,
                ),
            decreases self.matches@.len() - p,
        {
            if let Some(i) = partner_index(&self.matches[p].1, who.id) {
                proof {
                    lemma_withdraw_orderly(programs, st, p as int, i as int);
                }
                return Some(self.withdraw(p, i));
            }
            p += 1;
        }
        match partner_index(&self.unmatched_a, who.id) {
            Some(i) => {
                let partner = self.unmatched_a.remove(i);
                proof {
                    assert(roster_view(self.unmatched_a@) =~= st.unmatched.remove(i as int));
                    assert(self.rosters() =~= st.rosters);
                    assert(self.programs() =~= programs);
                }
                Some(partner)
            },
            None => None,
        }
    }

    /// Places the arriving unit and works off everyone that this sets in
    /// motion, the one displaced last first. After `limit` placements,
    /// whoever still waits joins the unmatched.
    fn settle_unit(&mut self, applicant: &'a Applicant, couple: Option<&'a Applicant>, limit: usize) -> (done:
        Result<(), MatchError>)
        requires
            old(self).orderly(),
        ensures
            final(self).programs() == old(self).programs(),
            final(self).unmatched_p == old(self).unmatched_p,
            match settle(
                old(self).programs(),
                old(self).placement(),
                seq![Task::Arrive(applicant@, partner_view(couple))],
                limit as nat,
            ) {
                Ok(st) => done is Ok && final(self).placement() == st && final(self).orderly(),
                Err(m) => done matches Err(MatchError::ProgramNotFound(s)) && s@ == missing_note(m),
            },
    {
        let ghost programs = self.programs();
        let ghost goal = settle(
            programs,
            self.placement(),
            seq![Task::Arrive(applicant@, partner_view(couple))],
            limit as nat,
        );
        let mut pending: Vec<Pending<'a>> = Vec::new();
        pending.push(Pending::Arrive(applicant, couple));
        let mut budget: usize = limit;
        proof {
            assert(tasks_view(pending@) =~= seq![Task::Arrive(applicant@, partner_view(couple))]);
        }
        while pending.len() > 0
            invariant
                programs == self.programs(),
                programs == old(self).programs(),
                self.unmatched_p == old(self).unmatched_p,
                self.orderly(),
                goal == settle(
                    programs,
                    old(self).placement(),
                    seq![Task::Arrive(applicant@, partner_view(couple))],
                    limit as nat,
                ),
                settle(programs, self.placement(), tasks_view(pending@), budget as nat) == goal,
            decreases budget, pending@.len(),
        {
            let ghost tasks = tasks_view(pending@);
            let ghost st = self.placement();
            let task = match pending.pop() {
                Some(task) => task,
                None => {
                    return Ok(());
                },
            };
            proof {
                assert(tasks_view(pending@) =~= tasks.drop_last());
                assert(task@ == tasks.last());
            }
            let (first, second) = match task {
                Pending::Arrive(a, b) => (a, b),
                Pending::Retry(who, near0, near1) => {
                    let partner = self.retry_match(who, near0, near1);
                    (who, partner)
                },
            };
            proof {
                let unit = resolve(st, tasks.last());
                assert(self.placement() == unit.state);
                assert(first@ == unit.first);
                assert(partner_view(second) == unit.second);
            }
            if budget == 0 {
                self.shelve(first);
                match second {
                    Some(b) => {
                        self.shelve(b);
                    },
                    None => {},
                }
            } else {
                budget -= 1;
                match self.attempt_couples_match(first, second, &mut pending) {
                    Err(e) => {
                        return Err(e);
                    },
                    Ok(()) => {},
                }
            }
        }
        Ok(())
    }

    /// Sorts the programs into those that keep somebody and those that keep
    /// nobody.
    fn finalize(&mut self)
        ensures
            final(self).matches_view() == filled(old(self).programs(), old(self).rosters()),
            final(self).unmatched_p_view() == unfilled(old(self).programs(), old(self).rosters()),
            final(self).unmatched_a == old(self).unmatched_a,
    {
        let ghost programs = self.programs();
        let ghost rosters = self.rosters();
        let mut kept: Vec<(&'a Program, Vec<&'a Applicant>)> = Vec::new();
        let mut idle: Vec<&'a Program> = Vec::new();
        let mut p: usize = 0;
        while p < self.matches.len()
            invariant
                p <= self.matches@.len(),
                *self == *old(self),
                programs == self.programs(),
                rosters == self.rosters(),
                Seq::new(kept@.len(), |q: int| (kept@[q].0@, roster_view(kept@[q].1@))) == filled(
                    programs.take(p as int),
                    rosters,
                ),
                Seq::new(idle@.len(), |q: int| idle@[q]@) == unfilled(programs.take(p as int), rosters),
            decreases self.matches@.len() - p,
        {
            proof {
                assert(programs.take(p + 1).drop_last() == programs.take(p as int));
            }
            let ghost kept_before = Seq::new(kept@.len(), |q: int| (kept@[q].0@, roster_view(kept@[q].1@)));
            let ghost idle_before = Seq::new(idle@.len(), |q: int| idle@[q]@);
            if self.matches[p].1.len() > 0 {
                let roster = copy_roster(&self.matches[p].1);
                kept.push((self.matches[p].0, roster));
                proof {
                    assert(Seq::new(kept@.len(), |q: int| (kept@[q].0@, roster_view(kept@[q].1@)))
                        =~= kept_before.push((programs[p as int], rosters[p as int])));
                }
            } else {
                idle.push(self.matches[p].0);
                proof {
                    assert(Seq::new(idle@.len(), |q: int| idle@[q]@) =~= idle_before.push(programs[p as int]));
                }
            }
            p += 1;
        }
        proof {
            assert(programs.take(p as int) == programs);
        }
        self.matches = kept;
        self.unmatched_p = idle;
    }

    /// Matches the applicants of `a`, unit by unit in the order given, to the
    /// programs of `p`. Whatever an earlier run left is forgotten first.
    ///
    /// On success `matches` holds every program that keeps at least one
    /// applicant, with its roster, `unmatched_p` the programs that keep
    /// nobody, and `unmatched_a` the applicants without a seat. The match is
    /// given up, and nothing is kept, when a preference list names a program
    /// that is not among `p` at the moment its owner asks there.
    ///
    /// Each arriving unit may set off a cascade of displacements. A cascade
    /// has the budget that [`cascade_budget`] works out from `p`; without
    /// couples no cascade needs more. One that is not over after as many
    /// placements is cut off, and whoever still waits then is recorded as
    /// unmatched, couples as one.
    pub fn run_match(&mut self, a: &'a Vec<Couple<Applicant>>, p: &'a Vec<Program>) -> (done: Result<
        (),
        MatchError,
    >)
        ensures
            match run(programs_view(p@), units_view(a@), budget_of(programs_view(p@))) {
                Ok(st) => {
                    &&& done is Ok
                    &&& final(self).matches_view() == filled(programs_view(p@), st.rosters)
                    &&& roster_view(final(self).unmatched_a@) == st.unmatched
                    &&& final(self).unmatched_p_view() == unfilled(programs_view(p@), st.rosters)
                    &&& within_capacity(final(self).matches_view())
                    &&& sound(programs_view(p@), st.rosters)
                    &&& everyone(st) == arrived(units_view(a@))
                    &&& well_formed(units_view(a@)) ==> forall|i: int|
                        0 <= i < a@.len() ==> ((#[trigger] units_view(a@)[i]).1 matches Some(b)
                            ==> together(programs_view(p@), st, units_view(a@)[i].0, b))
                    &&& all_alone(units_view(a@)) && table_weight(programs_view(p@)) < usize::MAX ==> forall|
                        b: ApplicantView,
                    | #[trigger] content(programs_view(p@), st, b)
                },
                Err(m) => {
                    &&& done matches Err(MatchError::ProgramNotFound(s)) && s@ == missing_note(m)
                    &&& final(self).matches@.len() == 0
                    &&& final(self).unmatched_a@.len() == 0
                    &&& final(self).unmatched_p@.len() == 0
                },
            },
    {
        self.clear();
        let ghost programs = programs_view(p@);
        let ghost units = units_view(a@);
        let limit = cascade_budget(p);
        let mut i: usize = 0;
        while i < p.len()
            invariant
                i <= p@.len(),
                programs == programs_view(p@),
                self.programs() == programs.take(i as int),
                self.rosters() == vacant(i as nat).rosters,
                self.unmatched_a@.len() == 0,
                self.unmatched_p@.len() == 0,
            decreases p@.len() - i,
        {
            let ghost before_p = self.programs();
            let ghost before_r = self.rosters();
            self.matches.push((&p[i], Vec::new()));
            proof {
                assert(self.programs() =~= before_p.push(programs[i as int]));
                assert(self.programs() =~= programs.take(i + 1));
                assert forall|q: int| 0 <= q < i + 1 implies #[trigger] self.rosters()[q]
                    == Seq::<ApplicantView>::empty() by {
                    if q < i {
                        assert(self.rosters()[q] == before_r[q]);
                    } else {
                        assert(self.rosters()[q] =~= Seq::<ApplicantView>::empty());
                    }
                }
                assert(self.rosters() =~= vacant((i + 1) as nat).rosters);
            }
            i += 1;
        }
        proof {
            assert(programs.take(i as int) == programs);
            assert(self.placement().unmatched =~= vacant(programs.len()).unmatched);
            assert(units.take(0) =~= Seq::<crate::models::UnitView>::empty());
        }
        let mut u: usize = 0;
        while u < a.len()
            invariant
                u <= a@.len(),
                programs == programs_view(p@),
                units == units_view(a@),
                self.programs() == programs,
                self.unmatched_p@.len() == 0,
                self.orderly(),
                limit == budget_of(programs),
                run(programs, units.take(u as int), limit as nat) == Ok::<Placement, Missing>(
                    self.placement(),
                ),
            decreases a@.len() - u,
        {
            proof {
                assert(units.take(u + 1).drop_last() == units.take(u as int));
                assert(units.take(u + 1).last() == units[u as int]);
            }
            let second = match &a[u].1 {
                Some(b) => Some(b),
                None => None,
            };
            match self.settle_unit(&a[u].0, second, limit) {
                Err(e) => {
                    proof {
                        lemma_run_fails_on(programs, units, limit as nat, u + 1);
                    }
                    self.clear();
                    return Err(e);
                },
                Ok(()) => {},
            }
            u += 1;
        }
        proof {
            assert(units.take(u as int) == units);
            lemma_run_sound(programs, units, limit as nat);
            law_disjoint_placement(programs, units, limit as nat);
            lemma_filled_within_capacity(programs, self.rosters());
            if well_formed(units) {
                law_couple_atomicity(programs, units, limit as nat);
            }
            if all_alone(units) && table_weight(programs) < usize::MAX {
                assert forall|b: ApplicantView| #[trigger] content(programs, self.placement(), b) by {
                    law_nobody_envies(programs, units, limit as nat, b);
                }
            }
        }
        self.finalize();
        Ok(())
    }

    /// The seats that nobody holds: those of the programs without an
    /// applicant, and those that the other programs have beyond their roster.
    pub open spec fn open_seats(&self) -> int {
        all_seats(self.unmatched_p_view()) + spare_seats(self.matches_view())
    }

    /// Counts the seats that nobody holds.
    pub fn unfilled_positions(&self) -> (open: u32)
        requires
            within_capacity(self.matches_view()),
            self.open_seats() <= u32::MAX,
        ensures
            open == self.open_seats(),
    {
        let ghost idle = self.unmatched_p_view();
        let ghost held = self.matches_view();
        let mut open: u32 = 0;
        let mut i: usize = 0;
        while i < self.unmatched_p.len()
            invariant
                i <= self.unmatched_p@.len(),
                idle == self.unmatched_p_view(),
                held == self.matches_view(),
                within_capacity(held),
                all_seats(idle) + spare_seats(held) <= u32::MAX,
                open == all_seats(idle.take(i as int)),
            decreases self.unmatched_p@.len() - i,
        {
            proof {
                assert(idle.take(i + 1).drop_last() == idle.take(i as int));
                lemma_all_seats_grow(idle, i + 1);
                lemma_spare_seats_grow(held, 0);
                assert(held.take(0) =~= Seq::<(ProgramView, Seq<ApplicantView>)>::empty());
            }
            open = open + self.unmatched_p[i].capacity as u32;
            i += 1;
        }
        proof {
            assert(idle.take(i as int) == idle);
        }
        let mut j: usize = 0;
        while j < self.matches.len()
            invariant
                j <= self.matches@.len(),
                idle == self.unmatched_p_view(),
                held == self.matches_view(),
                within_capacity(held),
                all_seats(idle) + spare_seats(held) <= u32::MAX,
                open == all_seats(idle) + spare_seats(held.take(j as int)),
            decreases self.matches@.len() - j,
        {
            proof {
                assert(held.take(j + 1).drop_last() == held.take(j as int));
                assert(held.take(j + 1).last() == held[j as int]);
                lemma_spare_seats_grow(held, j + 1);
                lemma_all_seats_grow(idle, 0);
            }
            let seats = self.matches[j].0.capacity as usize;
            let taken = self.matches[j].1.len();
            open = open + (seats - taken) as u32;
            j += 1;
        }
        proof {
            assert(held.take(j as int) == held);
        }
        open
    }
}

/// A copy of `roster`.
fn copy_roster<'a>(roster: &Vec<&'a Applicant>) -> (copy: Vec<&'a Applicant>)
    ensures
        copy@ == roster@,
{
    let mut copy: Vec<&'a Applicant> = Vec::new();
    let mut i: usize = 0;
    while i < roster.len()
        invariant
            i <= roster@.len(),
            copy@ == roster@.take(i as int),
        decreases roster@.len() - i,
    {
        copy.push(roster[i]);
        proof {
            assert(roster@.take(i + 1) == roster@.take(i as int).push(roster@[i as int]));
        }
        i += 1;
    }
    proof {
        assert(roster@.take(i as int) == roster@);
    }
    copy
}

/// A run that fails on a prefix of the units fails in the same way on all.
proof fn lemma_run_fails_on(programs: Seq<ProgramView>, units: Seq<crate::models::UnitView>, budget: nat, n: int)
    requires
        0 <= n <= units.len(),
        run(programs, units.take(n), budget) is Err,
    ensures
        run(programs, units, budget) == run(programs, units.take(n), budget),
    decreases units.len() - n,
{
    if n < units.len() {
        assert(units.take(n + 1).drop_last() == units.take(n));
        lemma_run_fails_on(programs, units, budget, n + 1);
    } else {
        assert(units.take(n) == units);
    }
}

} // verus!
