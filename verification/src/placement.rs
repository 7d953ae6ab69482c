//! The matching procedure as a mathematical function.
//!
//! A [`Placement`] is the tentative assignment: one roster per program and the
//! pool of applicants that found no seat. [`place`] says where one arriving
//! unit goes and whom it displaces, [`settle`] works off the displaced until
//! nobody is left waiting, and [`run`] does so for every unit in turn.
//!
//! Everything here is ghost code. The executable matcher is proved to compute
//! exactly these functions.

use vstd::prelude::*;
use crate::models::{ApplicantView, ProgramView, UnitView};

verus! {

/// The tentative assignment: `rosters[p]` holds the applicants that program
/// `p` keeps for now, in the order in which they were admitted, and
/// `unmatched` those that found no seat.
pub struct Placement {
    pub rosters: Seq<Seq<ApplicantView>>,
    pub unmatched: Seq<ApplicantView>,
}

/// For which seat a program was looked up.
pub enum Seat {
    /// The seat of an applicant that is placed alone.
    Single,
    /// The seat of the first member of a couple.
    First,
    /// The seat of the second member of a couple.
    Second,
}

/// A preference list named a program that is not in the table.
pub struct Missing {
    pub program: u32,
    pub seat: Seat,
}

/// Work that is waiting: a unit to place, or a displaced applicant whose
/// partner has yet to be looked for.
pub enum Task {
    Arrive(ApplicantView, Option<ApplicantView>),
    /// `near` names the programs whose rosters are searched first for the
    /// partner: those that admitted the unit which displaced `who`.
    Retry { who: ApplicantView, near: (int, int) },
}

/// The assignment in which `n` programs hold nobody.
pub open spec fn vacant(n: nat) -> Placement {
    Placement { rosters: Seq::new(n, |p: int| Seq::<ApplicantView>::empty()), unmatched: Seq::empty() }
}

/// The identifiers of `programs`, in table order.
pub open spec fn program_ids(programs: Seq<ProgramView>) -> Seq<u32> {
    Seq::new(programs.len(), |p: int| programs[p].id)
}

/// The index of the first program of the table with identifier `id`.
pub open spec fn find_program(programs: Seq<ProgramView>, id: u32) -> Option<int> {
    program_ids(programs).index_of_first(id)
}

/// The index of the weakest member of `roster` in the eyes of `p`, the member
/// at index `skip` left aside: the one that stands last on the preference
/// list of `p`, and among several of equal standing the one admitted first.
/// It is -1 where no member is left to choose from.
pub open spec fn worst_member(p: ProgramView, roster: Seq<ApplicantView>, skip: int) -> int
    decreases roster.len(),
{
    if roster.len() == 0 {
        -1
    } else {
        let last = roster.len() - 1;
        let w = worst_member(p, roster.drop_last(), skip);
        if last == skip {
            w
        } else if w < 0 || p.standing(roster[last].id) > p.standing(roster[w].id) {
            last
        } else {
            w
        }
    }
}

/// Whether `p` ranks every member of `roster`.
pub open spec fn ranks_all(p: ProgramView, roster: Seq<ApplicantView>) -> bool {
    forall|i: int| 0 <= i < roster.len() ==> (#[trigger] p.rank_of(roster[i].id)) is Some
}

/// Whether every roster belongs to a program of the table and holds only
/// applicants that this program ranks.
pub open spec fn orderly(programs: Seq<ProgramView>, rosters: Seq<Seq<ApplicantView>>) -> bool {
    &&& rosters.len() == programs.len()
    &&& forall|p: int| 0 <= p < programs.len() ==> ranks_all(#[trigger] programs[p], rosters[p])
}

/// What a program answers to an applicant that applies alone.
pub enum Offer {
    /// No seat.
    Pass,
    /// A free seat.
    Open,
    /// The seat of the roster member at this index.
    Displace(int),
}

/// The answer of `p`, holding `roster`, to applicant `a`.
pub open spec fn single_offer(p: ProgramView, roster: Seq<ApplicantView>, a: ApplicantView) -> Offer {
    match p.rank_of(a.id) {
        None => Offer::Pass,
        Some(r) => {
            if p.capacity == 0 {
                Offer::Pass
            } else if roster.len() < p.capacity {
                Offer::Open
            } else {
                let w = worst_member(p, roster, -1);
                if w >= 0 && r < p.standing(roster[w].id) {
                    Offer::Displace(w)
                } else {
                    Offer::Pass
                }
            }
        },
    }
}

/// What one program answers to a couple that asks for two of its seats.
pub enum TogetherOffer {
    Pass,
    /// Two free seats.
    Open,
    /// One free seat and the seat of the member at this index.
    DisplaceOne(int),
    /// The seats of the weakest member and of the next weakest, in this order.
    DisplaceTwo(int, int),
}

/// The answer of `p`, holding `roster`, to the couple `a`, `b`.
pub open spec fn together_offer(
    p: ProgramView,
    roster: Seq<ApplicantView>,
    a: ApplicantView,
    b: ApplicantView,
) -> TogetherOffer {
    match (p.rank_of(a.id), p.rank_of(b.id)) {
        (Some(ra), Some(rb)) => {
            if p.capacity < 2 {
                TogetherOffer::Pass
            } else if roster.len() + 2 <= p.capacity {
                TogetherOffer::Open
            } else if roster.len() + 1 == p.capacity {
                let w = worst_member(p, roster, -1);
                if w >= 0 && ra < p.standing(roster[w].id) && rb < p.standing(roster[w].id) {
                    TogetherOffer::DisplaceOne(w)
                } else {
                    TogetherOffer::Pass
                }
            } else {
                let w1 = worst_member(p, roster, -1);
                let w2 = worst_member(p, roster, w1);
                if w1 >= 0 && w2 >= 0 && ra < p.standing(roster[w2].id) && rb < p.standing(
                    roster[w2].id,
                ) {
                    TogetherOffer::DisplaceTwo(w1, w2)
                } else {
                    TogetherOffer::Pass
                }
            }
        },
        _ => TogetherOffer::Pass,
    }
}

/// What two different programs answer to a couple that asks for one seat in
/// each.
pub enum ApartOffer {
    Pass,
    /// A free seat in each.
    Open,
    /// The seat of the weakest member of the first program's roster and that
    /// of the weakest member of the second's.
    Displace(int, int),
}

/// The answer of `p0`, holding `r0`, and `p1`, holding `r1`, to the couple
/// `a`, `b`, where `a` asks for a seat of `p0` and `b` for one of `p1`.
pub open spec fn apart_offer(
    p0: ProgramView,
    r0: Seq<ApplicantView>,
    p1: ProgramView,
    r1: Seq<ApplicantView>,
    a: ApplicantView,
    b: ApplicantView,
) -> ApartOffer {
    match (p0.rank_of(a.id), p1.rank_of(b.id)) {
        (Some(ra), Some(rb)) => {
            if p0.capacity == 0 || p1.capacity == 0 {
                ApartOffer::Pass
            } else if r0.len() < p0.capacity && r1.len() < p1.capacity {
                ApartOffer::Open
            } else {
                let w0 = worst_member(p0, r0, -1);
                let w1 = worst_member(p1, r1, -1);
                if w0 >= 0 && w1 >= 0 && ra < p0.standing(r0[w0].id) && rb < p1.standing(r1[w1].id) {
                    ApartOffer::Displace(w0, w1)
                } else {
                    ApartOffer::Pass
                }
            }
        },
        _ => ApartOffer::Pass,
    }
}

/// Where a walk down the preference list of a single applicant ends.
pub enum SingleChoice {
    Missing(Missing),
    /// Every entry was passed.
    Exhausted,
    /// Entry `at` names the program at index `program`, which admits the
    /// applicant, in place of the roster member at index `evict` if there is
    /// one.
    Take { at: int, program: int, evict: Option<int> },
}

/// The walk of `a` down its preference list from entry `k` on: the first
/// entry whose program does not pass.
pub open spec fn single_choice(
    programs: Seq<ProgramView>,
    rosters: Seq<Seq<ApplicantView>>,
    a: ApplicantView,
    k: int,
) -> SingleChoice
    decreases a.ranking.len() - k,
{
    if k < 0 || k >= a.ranking.len() {
        SingleChoice::Exhausted
    } else {
        match find_program(programs, a.ranking[k]) {
            None => SingleChoice::Missing(Missing { program: a.ranking[k], seat: Seat::Single }),
            Some(p) => match single_offer(programs[p], rosters[p], a) {
                Offer::Pass => single_choice(programs, rosters, a, k + 1),
                Offer::Open => SingleChoice::Take { at: k, program: p, evict: None },
                Offer::Displace(w) => SingleChoice::Take { at: k, program: p, evict: Some(w) },
            },
        }
    }
}

/// Where a walk down the joint preference list of a couple ends.
pub enum PairChoice {
    Missing(Missing),
    Exhausted,
    /// Entry `at` names the same program for both.
    Together { at: int, program: int, offer: TogetherOffer },
    /// Entry `at` names program `first` for the one and `second` for the other.
    Apart { at: int, first: int, second: int, offers: ApartOffer },
}

/// The number of entries of the joint preference list of `a` and `b`.
pub open spec fn joint_len(a: ApplicantView, b: ApplicantView) -> int {
    if a.ranking.len() <= b.ranking.len() {
        a.ranking.len() as int
    } else {
        b.ranking.len() as int
    }
}

/// The walk of the couple `a`, `b` down its joint preference list from entry
/// `k` on, entry `k` being the pair of `a.ranking[k]` and `b.ranking[k]`: the
/// first entry whose programs do not pass.
pub open spec fn pair_choice(
    programs: Seq<ProgramView>,
    rosters: Seq<Seq<ApplicantView>>,
    a: ApplicantView,
    b: ApplicantView,
    k: int,
) -> PairChoice
    decreases joint_len(a, b) - k,
{
    if k < 0 || k >= joint_len(a, b) {
        PairChoice::Exhausted
    } else {
        match find_program(programs, a.ranking[k]) {
            None => PairChoice::Missing(Missing { program: a.ranking[k], seat: Seat::First }),
            Some(p0) => {
                if a.ranking[k] == b.ranking[k] {
                    match together_offer(programs[p0], rosters[p0], a, b) {
                        TogetherOffer::Pass => pair_choice(programs, rosters, a, b, k + 1),
                        offer => PairChoice::Together { at: k, program: p0, offer },
                    }
                } else {
                    match find_program(programs, b.ranking[k]) {
                        None => PairChoice::Missing(
                            Missing { program: b.ranking[k], seat: Seat::Second },
                        ),
                        Some(p1) => match apart_offer(
                            programs[p0],
                            rosters[p0],
                            programs[p1],
                            rosters[p1],
                            a,
                            b,
                        ) {
                            ApartOffer::Pass => pair_choice(programs, rosters, a, b, k + 1),
                            offers => PairChoice::Apart { at: k, first: p0, second: p1, offers },
                        },
                    }
                }
            },
        }
    }
}

impl Placement {
    /// `a` joins the roster of program `p`, behind its members.
    pub open spec fn enroll(self, p: int, a: ApplicantView) -> Placement {
        Placement { rosters: self.rosters.update(p, self.rosters[p].push(a)), unmatched: self.unmatched }
    }

    /// The member at index `i` leaves the roster of program `p`; those behind
    /// it move up.
    pub open spec fn withdraw(self, p: int, i: int) -> Placement {
        Placement {
            rosters: self.rosters.update(p, self.rosters[p].remove(i)),
            unmatched: self.unmatched,
        }
    }

    /// `a` joins the pool of the unmatched.
    pub open spec fn shelve(self, a: ApplicantView) -> Placement {
        Placement { rosters: self.rosters, unmatched: self.unmatched.push(a) }
    }

    /// The unit `a`, `b` joins the pool of the unmatched.
    pub open spec fn shelve_unit(self, a: ApplicantView, b: Option<ApplicantView>) -> Placement {
        match b {
            Some(b) => self.shelve(a).shelve(b),
            None => self.shelve(a),
        }
    }
}

/// Whether `x` and `y` name each other as partner.
pub open spec fn partners(x: ApplicantView, y: ApplicantView) -> bool {
    x.couple == Some(y.id) && y.couple == Some(x.id)
}

/// The work that two applicants leave behind who were displaced in one step,
/// `first` to be seen to before `second`. The task at the end of the sequence
/// is the next to be worked off.
pub open spec fn displaced_pair(first: ApplicantView, second: ApplicantView, near: (int, int)) -> Seq<
    Task,
> {
    if partners(first, second) {
        seq![Task::Arrive(first, Some(second))]
    } else {
        seq![Task::Retry { who: second, near }, Task::Retry { who: first, near }]
    }
}

/// What placing one unit comes to.
pub enum Placed {
    Missing(Missing),
    /// The assignment after the unit was placed or shelved, and the work that
    /// the displaced leave behind.
    Done { state: Placement, displaced: Seq<Task> },
}

/// Places an applicant that applies alone: it takes the first seat on its
/// list that is offered to it, else it joins the unmatched.
pub open spec fn place_single(programs: Seq<ProgramView>, st: Placement, a: ApplicantView) -> Placed {
    match single_choice(programs, st.rosters, a, 0) {
        SingleChoice::Missing(m) => Placed::Missing(m),
        SingleChoice::Exhausted => Placed::Done { state: st.shelve(a), displaced: seq![] },
        SingleChoice::Take { at, program, evict: None } => Placed::Done {
            state: st.enroll(program, a),
            displaced: seq![],
        },
        SingleChoice::Take { at, program, evict: Some(w) } => Placed::Done {
            state: st.withdraw(program, w).enroll(program, a),
            displaced: seq![Task::Retry { who: st.rosters[program][w], near: (program, program) }],
        },
    }
}

/// Places a couple: it takes the first pair of seats on its joint list that
/// is offered to it, else both join the unmatched.
pub open spec fn place_pair(
    programs: Seq<ProgramView>,
    st: Placement,
    a: ApplicantView,
    b: ApplicantView,
) -> Placed {
    match pair_choice(programs, st.rosters, a, b, 0) {
        PairChoice::Missing(m) => Placed::Missing(m),
        PairChoice::Exhausted => Placed::Done { state: st.shelve(a).shelve(b), displaced: seq![] },
        PairChoice::Together { at, program: p, offer } => match offer {
            TogetherOffer::DisplaceOne(w) => Placed::Done {
                state: st.withdraw(p, w).enroll(p, a).enroll(p, b),
                displaced: seq![Task::Retry { who: st.rosters[p][w], near: (p, p) }],
            },
            TogetherOffer::DisplaceTwo(w1, w2) => Placed::Done {
                state: st.withdraw(p, if w1 < w2 { w2 } else { w1 }).withdraw(
                    p,
                    if w1 < w2 { w1 } else { w2 },
                ).enroll(p, a).enroll(p, b),
                displaced: displaced_pair(st.rosters[p][w1], st.rosters[p][w2], (p, p)),
            },
            _ => Placed::Done { state: st.enroll(p, a).enroll(p, b), displaced: seq![] },
        },
        PairChoice::Apart { at, first: p0, second: p1, offers } => match offers {
            ApartOffer::Displace(w0, w1) => Placed::Done {
                state: st.withdraw(p0, w0).withdraw(p1, w1).enroll(p0, a).enroll(p1, b),
                displaced: displaced_pair(st.rosters[p0][w0], st.rosters[p1][w1], (p0, p1)),
            },
            _ => Placed::Done { state: st.enroll(p0, a).enroll(p1, b), displaced: seq![] },
        },
    }
}

/// Places the unit `a`, `b`.
pub open spec fn place(
    programs: Seq<ProgramView>,
    st: Placement,
    a: ApplicantView,
    b: Option<ApplicantView>,
) -> Placed {
    match b {
        Some(b) => place_pair(programs, st, a, b),
        None => place_single(programs, st, a),
    }
}

/// The index of the first member of `group` that names `id` as its partner.
pub open spec fn partner_in(group: Seq<ApplicantView>, id: u32) -> Option<int> {
    Seq::new(group.len(), |i: int| group[i].couple).index_of_first(Some(id))
}

/// The first roster from index `from` on that holds a member naming `id` as
/// its partner, and that member's index in it.
pub open spec fn partner_in_rosters(rosters: Seq<Seq<ApplicantView>>, id: u32, from: int) -> Option<
    (int, int),
>
    decreases rosters.len() - from,
{
    if from < 0 || from >= rosters.len() {
        None
    } else {
        match partner_in(rosters[from], id) {
            Some(i) => Some((from, i)),
            None => partner_in_rosters(rosters, id, from + 1),
        }
    }
}

/// Where the partner of the applicant `id` sits: looked for in the rosters
/// `near.0` and `near.1` first, then in all rosters in table order.
pub open spec fn locate_partner(rosters: Seq<Seq<ApplicantView>>, id: u32, near: (int, int)) -> Option<
    (int, int),
> {
    if 0 <= near.0 < rosters.len() && partner_in(rosters[near.0], id) is Some {
        Some((near.0, partner_in(rosters[near.0], id).unwrap()))
    } else if 0 <= near.1 < rosters.len() && partner_in(rosters[near.1], id) is Some {
        Some((near.1, partner_in(rosters[near.1], id).unwrap()))
    } else {
        partner_in_rosters(rosters, id, 0)
    }
}

/// A task turned into the unit that is to be placed, and the assignment with
/// that unit taken out of it.
pub struct Resolved {
    pub state: Placement,
    pub first: ApplicantView,
    pub second: Option<ApplicantView>,
}

/// Turns a task into a unit. A displaced applicant that has a partner is
/// joined by it: the partner is taken from the roster that holds it, else
/// from the unmatched. A partner that is in neither place is itself waiting,
/// and the applicant goes on alone.
pub open spec fn resolve(st: Placement, task: Task) -> Resolved {
    match task {
        Task::Arrive(a, b) => Resolved { state: st, first: a, second: b },
        Task::Retry { who, near } => {
            if who.couple is None {
                Resolved { state: st, first: who, second: None }
            } else {
                match locate_partner(st.rosters, who.id, near) {
                    Some((p, i)) => Resolved {
                        state: st.withdraw(p, i),
                        first: who,
                        second: Some(st.rosters[p][i]),
                    },
                    None => match partner_in(st.unmatched, who.id) {
                        Some(i) => Resolved {
                            state: Placement { rosters: st.rosters, unmatched: st.unmatched.remove(i) },
                            first: who,
                            second: Some(st.unmatched[i]),
                        },
                        None => Resolved { state: st, first: who, second: None },
                    },
                }
            }
        },
    }
}

/// Works off `tasks`, the last first, together with the work that each
/// placement leaves behind, until nothing waits. At most `budget` units are
/// placed; a unit whose turn comes after that joins the unmatched without
/// being offered a seat.
pub open spec fn settle(programs: Seq<ProgramView>, st: Placement, tasks: Seq<Task>, budget: nat) -> Result<
    Placement,
    Missing,
>
    decreases budget, tasks.len(),
{
    if tasks.len() == 0 {
        Ok(st)
    } else {
        let unit = resolve(st, tasks.last());
        if budget == 0 {
            settle(programs, unit.state.shelve_unit(unit.first, unit.second), tasks.drop_last(), 0)
        } else {
            match place(programs, unit.state, unit.first, unit.second) {
                Placed::Missing(m) => Err(m),
                Placed::Done { state, displaced } => settle(
                    programs,
                    state,
                    tasks.drop_last() + displaced,
                    (budget - 1) as nat,
                ),
            }
        }
    }
}

/// The assignment after every unit of `units` has arrived, in order, each
/// with a budget of `budget` placements for itself and those it sets in
/// motion; or the first lookup that failed.
pub open spec fn run(programs: Seq<ProgramView>, units: Seq<UnitView>, budget: nat) -> Result<
    Placement,
    Missing,
>
    decreases units.len(),
{
    if units.len() == 0 {
        Ok(vacant(programs.len()))
    } else {
        match run(programs, units.drop_last(), budget) {
            Err(m) => Err(m),
            Ok(st) => settle(programs, st, seq![Task::Arrive(units.last().0, units.last().1)], budget),
        }
    }
}

/// The programs that hold at least one applicant, each with its roster, in
/// table order.
pub open spec fn filled(programs: Seq<ProgramView>, rosters: Seq<Seq<ApplicantView>>) -> Seq<
    (ProgramView, Seq<ApplicantView>),
>
    decreases programs.len(),
{
    if programs.len() == 0 {
        seq![]
    } else {
        let before = filled(programs.drop_last(), rosters);
        let p = programs.len() - 1;
        if rosters[p].len() > 0 {
            before.push((programs[p], rosters[p]))
        } else {
            before
        }
    }
}

/// The programs that hold nobody, in table order.
pub open spec fn unfilled(programs: Seq<ProgramView>, rosters: Seq<Seq<ApplicantView>>) -> Seq<
    ProgramView,
>
    decreases programs.len(),
{
    if programs.len() == 0 {
        seq![]
    } else {
        let before = unfilled(programs.drop_last(), rosters);
        let p = programs.len() - 1;
        if rosters[p].len() > 0 {
            before
        } else {
            before.push(programs[p])
        }
    }
}

/// Whether no roster of `matches` is longer than its program has seats.
pub open spec fn within_capacity(matches: Seq<(ProgramView, Seq<ApplicantView>)>) -> bool {
    forall|p: int| 0 <= p < matches.len() ==> (#[trigger] matches[p]).1.len() <= matches[p].0.capacity
}

/// The seats that the programs of `matches` have beyond those taken.
pub open spec fn spare_seats(matches: Seq<(ProgramView, Seq<ApplicantView>)>) -> int
    decreases matches.len(),
{
    if matches.len() == 0 {
        0
    } else {
        spare_seats(matches.drop_last()) + (matches.last().0.capacity - matches.last().1.len())
    }
}

/// The seats of `programs`, all told.
pub open spec fn all_seats(programs: Seq<ProgramView>) -> int
    decreases programs.len(),
{
    if programs.len() == 0 {
        0
    } else {
        all_seats(programs.drop_last()) + programs.last().capacity
    }
}

/// The seats of the first `n` programs, each counted once for every entry
/// of its program's list.
pub open spec fn weight_upto(programs: Seq<ProgramView>, n: int) -> int
    decreases n,
{
    if n <= 0 {
        0
    } else {
        weight_upto(programs, n - 1) + programs[n - 1].capacity * programs[n - 1].ranking.len()
    }
}

/// The weight of the table: the seats of every program, each counted once
/// for every entry of its program's list. A cascade without couples places
/// no more units than this, and one.
pub open spec fn table_weight(programs: Seq<ProgramView>) -> int {
    weight_upto(programs, programs.len() as int)
}

} // verus!
