//! Programs keep whom they prefer: an applicant is turned away only by a
//! program that is full of applicants it likes better.

use vstd::prelude::*;
use crate::atomicity::{seated, shelved};
use crate::laws::{
    lemma_find_program, lemma_place_single_sound, lemma_rank_of, lemma_run_sound, lemma_single_choice,
    lemma_worst_member_bound, sound,
};
use crate::models::{ApplicantView, ProgramView, UnitView};
use crate::placement::{
    Offer, Placed, Placement, SingleChoice, Task, find_program, place, place_single, resolve, run,
    settle, single_choice, single_offer, table_weight, vacant, weight_upto, worst_member,
};

verus! {

/// Whether `roster` is full and `p` likes each of its members better than
/// `a`: each stands before `a` on the list of `p`.
pub open spec fn outranked(p: ProgramView, roster: Seq<ApplicantView>, a: ApplicantView) -> bool {
    &&& roster.len() >= p.capacity
    &&& forall|i: int|
        0 <= i < roster.len() && (#[trigger] roster[i]).id != a.id ==> p.standing(roster[i].id) < p.standing(
            a.id,
        )
}

/// Whether `p`, holding `roster`, has no seat for `a`: it does not rank `a`,
/// or it has no seats at all, or it is full of applicants it likes better.
pub open spec fn turned_away(p: ProgramView, roster: Seq<ApplicantView>, a: ApplicantView) -> bool {
    p.rank_of(a.id) is None || p.capacity == 0 || outranked(p, roster, a)
}

/// Whether `a` walked past entry `j` of its list: the entry names a program
/// of the table, and that program has no seat for `a`.
pub open spec fn walked_past(
    programs: Seq<ProgramView>,
    rosters: Seq<Seq<ApplicantView>>,
    a: ApplicantView,
    j: int,
) -> bool {
    find_program(programs, a.ranking[j]) matches Some(p) && turned_away(programs[p], rosters[p], a)
}

/// Nobody stands behind the weakest member.
pub proof fn lemma_worst_member_is_worst(p: ProgramView, roster: Seq<ApplicantView>, skip: int, i: int)
    requires
        0 <= i < roster.len(),
        i != skip,
    ensures
        0 <= worst_member(p, roster, skip) < roster.len(),
        p.standing(roster[i].id) <= p.standing(roster[worst_member(p, roster, skip)].id),
    decreases roster.len(),
{
    lemma_worst_member_bound(p, roster, skip);
    let front = roster.drop_last();
    lemma_worst_member_bound(p, front, skip);
    if i < roster.len() - 1 {
        lemma_worst_member_is_worst(p, front, skip, i);
        assert(front[i] == roster[i]);
        assert(front[worst_member(p, front, skip)] == roster[worst_member(p, front, skip)]);
    }
}

/// Two applicants that stand at one place of a list are one.
pub proof fn lemma_standing_tells(p: ProgramView, x: u32, y: u32)
    requires
        p.rank_of(x) is Some,
        p.standing(x) == p.standing(y),
    ensures
        x == y,
{
    lemma_rank_of(p, x);
    lemma_rank_of(p, y);
}

/// **Monotone preference of programs, at the moment of asking.** A program
/// passes on an applicant that applies alone exactly when it has no seat
/// for it: it does not rank the applicant, it has no seats, or it is full
/// and likes every member better.
pub proof fn law_pass_is_outranked(p: ProgramView, roster: Seq<ApplicantView>, a: ApplicantView)
    ensures
        single_offer(p, roster, a) is Pass <==> turned_away(p, roster, a),
{
    lemma_rank_of(p, a.id);
    lemma_worst_member_bound(p, roster, -1);
    if let Some(r) = p.rank_of(a.id) {
        if p.capacity > 0 && roster.len() >= p.capacity {
            let w = worst_member(p, roster, -1);
            if single_offer(p, roster, a) is Pass {
                assert forall|i: int| 0 <= i < roster.len() && (#[trigger] roster[i]).id != a.id implies p.standing(
                    roster[i].id,
                ) < p.standing(a.id) by {
                    lemma_worst_member_is_worst(p, roster, -1, i);
                    if p.standing(roster[i].id) == p.standing(a.id) {
                        lemma_standing_tells(p, a.id, roster[i].id);
                    }
                }
            }
            if outranked(p, roster, a) {
                if roster[w].id != a.id {
                    assert(p.standing(roster[w].id) < p.standing(a.id));
                }
            }
        }
    }
}

/// **Monotone preference of programs, along the walk.** An applicant that
/// applies alone takes the first seat on its list that is to be had: every
/// entry before the one it takes names a program that has no seat for it,
/// and where it ends up unmatched, every entry of its list does.
pub proof fn law_walk_takes_first_seat(
    programs: Seq<ProgramView>,
    rosters: Seq<Seq<ApplicantView>>,
    a: ApplicantView,
    k: int,
)
    requires
        0 <= k,
    ensures
        match single_choice(programs, rosters, a, k) {
            SingleChoice::Take { at, program, evict } => {
                &&& forall|j: int| k <= j < at ==> walked_past(programs, rosters, a, j)
                &&& Some(program) == find_program(programs, a.ranking[at])
                &&& !turned_away(programs[program], rosters[program], a)
            },
            SingleChoice::Exhausted => forall|j: int|
                k <= j < a.ranking.len() ==> walked_past(programs, rosters, a, j),
            SingleChoice::Missing(m) => true,
        },
    decreases a.ranking.len() - k,
{
    if k < a.ranking.len() {
        lemma_find_program(programs, a.ranking[k]);
        law_walk_takes_first_seat(programs, rosters, a, k + 1);
        if let Some(p) = find_program(programs, a.ranking[k]) {
            law_pass_is_outranked(programs[p], rosters[p], a);
        }
    }
}

/// Whether entry `j` of the list of `b` stands before the first entry that
/// names the program at index `q`.
pub open spec fn before_seat(programs: Seq<ProgramView>, b: ApplicantView, q: int, j: int) -> bool {
    &&& 0 <= j < b.ranking.len()
    &&& forall|i: int| 0 <= i <= j ==> find_program(programs, #[trigger] b.ranking[i]) != Some(q)
}

/// Whether `b` has no claim on a seat that it would like better: every
/// entry of its list before the program that holds it, and every entry
/// where it is unmatched, names a program that has no seat for it.
pub open spec fn content(programs: Seq<ProgramView>, st: Placement, b: ApplicantView) -> bool {
    &&& forall|q: int, j: int|
        #![trigger seated(st, q, b), walked_past(programs, st.rosters, b, j)]
        seated(st, q, b) && before_seat(programs, b, q, j) ==> walked_past(programs, st.rosters, b, j)
    &&& forall|j: int|
        #![trigger walked_past(programs, st.rosters, b, j)]
        shelved(st, b) && 0 <= j < b.ranking.len() ==> walked_past(programs, st.rosters, b, j)
}

/// Whether nobody in the rosters has a partner.
pub open spec fn loners(st: Placement) -> bool {
    forall|p: int, i: int|
        0 <= p < st.rosters.len() && 0 <= i < st.rosters[p].len() ==> (#[trigger] st.rosters[p][i]).couple is None
}

/// Whether every task stands for one applicant without partner.
pub open spec fn lone_tasks(tasks: Seq<Task>) -> bool {
    forall|i: int|
        0 <= i < tasks.len() ==> match #[trigger] tasks[i] {
            Task::Arrive(a, b) => a.couple is None && b is None,
            Task::Retry { who, .. } => who.couple is None,
        }
}

/// Whether every unit is an applicant that arrives alone and names no
/// partner.
pub open spec fn all_alone(units: Seq<UnitView>) -> bool {
    forall|i: int| 0 <= i < units.len() ==> (#[trigger] units[i]).1 is None && units[i].0.couple is None
}

/// How far the members of `roster` stand from the top of the list of `p`,
/// all told.
pub open spec fn roster_weight(p: ProgramView, roster: Seq<ApplicantView>) -> int
    decreases roster.len(),
{
    if roster.len() == 0 {
        0
    } else {
        roster_weight(p, roster.drop_last()) + p.standing(roster.last().id)
    }
}

/// How far the members of the first `n` rosters stand from the top of
/// their programs' lists, all told.
pub open spec fn slack_upto(programs: Seq<ProgramView>, rosters: Seq<Seq<ApplicantView>>, n: int) -> int
    decreases n,
{
    if n <= 0 {
        0
    } else {
        slack_upto(programs, rosters, n - 1) + roster_weight(programs[n - 1], rosters[n - 1])
    }
}

/// How far all roster members stand from the top of their programs' lists.
/// Every displacement makes it less.
pub open spec fn slack(programs: Seq<ProgramView>, rosters: Seq<Seq<ApplicantView>>) -> int {
    slack_upto(programs, rosters, programs.len() as int)
}

/// Nobody stands before the top of a list or behind its end.
pub proof fn lemma_standing_bound(p: ProgramView, applicant: u32)
    ensures
        0 <= p.standing(applicant) <= p.ranking.len(),
{
    lemma_rank_of(p, applicant);
}

/// A new member adds its standing.
pub proof fn lemma_roster_weight_push(p: ProgramView, roster: Seq<ApplicantView>, a: ApplicantView)
    ensures
        roster_weight(p, roster.push(a)) == roster_weight(p, roster) + p.standing(a.id),
{
    assert(roster.push(a).drop_last() =~= roster);
}

/// A member that leaves takes its standing with it.
pub proof fn lemma_roster_weight_remove(p: ProgramView, roster: Seq<ApplicantView>, i: int)
    requires
        0 <= i < roster.len(),
    ensures
        roster_weight(p, roster.remove(i)) == roster_weight(p, roster) - p.standing(roster[i].id),
    decreases roster.len(),
{
    if i == roster.len() - 1 {
        assert(roster.remove(i) =~= roster.drop_last());
    } else {
        assert(roster.remove(i).drop_last() =~= roster.drop_last().remove(i));
        assert(roster.remove(i).last() == roster.last());
        lemma_roster_weight_remove(p, roster.drop_last(), i);
    }
}

/// A roster weighs no more than its members times the length of the list.
pub proof fn lemma_roster_weight_bound(p: ProgramView, roster: Seq<ApplicantView>)
    ensures
        0 <= roster_weight(p, roster) <= roster.len() * p.ranking.len(),
    decreases roster.len(),
{
    if roster.len() > 0 {
        lemma_roster_weight_bound(p, roster.drop_last());
        lemma_standing_bound(p, roster.last().id);
        let k = roster.len() - 1;
        let l = p.ranking.len() as int;
        assert((k + 1) * l == k * l + l) by (nonlinear_arith);
    } else {
        assert(0 * p.ranking.len() == 0) by (nonlinear_arith);
    }
}

/// Replacing one roster exchanges its weight for that of the new one.
pub proof fn lemma_slack_update(
    programs: Seq<ProgramView>,
    rosters: Seq<Seq<ApplicantView>>,
    q: int,
    roster: Seq<ApplicantView>,
    n: int,
)
    requires
        0 <= q < rosters.len(),
        0 <= n <= rosters.len(),
    ensures
        slack_upto(programs, rosters.update(q, roster), n) == slack_upto(programs, rosters, n) + if q < n {
            roster_weight(programs[q], roster) - roster_weight(programs[q], rosters[q])
        } else {
            0
        },
    decreases n,
{
    if n > 0 {
        lemma_slack_update(programs, rosters, q, roster, n - 1);
    }
}

/// Where no roster is over capacity, the rosters weigh no more than the
/// table.
pub proof fn lemma_slack_bound(programs: Seq<ProgramView>, rosters: Seq<Seq<ApplicantView>>, n: int)
    requires
        0 <= n <= programs.len(),
        rosters.len() == programs.len(),
        forall|p: int| 0 <= p < programs.len() ==> (#[trigger] rosters[p]).len() <= programs[p].capacity,
    ensures
        0 <= slack_upto(programs, rosters, n) <= weight_upto(programs, n),
    decreases n,
{
    if n > 0 {
        lemma_slack_bound(programs, rosters, n - 1);
        lemma_roster_weight_bound(programs[n - 1], rosters[n - 1]);
        let k = rosters[n - 1].len() as int;
        let c = programs[n - 1].capacity as int;
        let l = programs[n - 1].ranking.len() as int;
        assert(k * l <= c * l) by (nonlinear_arith)
            requires
                0 <= k <= c,
                0 <= l,
        ;
    }
}

/// An applicant that displaces a roster member leaves the rosters lighter;
/// one that takes a free seat or none displaces nobody.
proof fn lemma_displacement_lightens(programs: Seq<ProgramView>, st: Placement, a: ApplicantView)
    requires
        st.rosters.len() == programs.len(),
    ensures
        place_single(programs, st, a) matches Placed::Done { state, displaced } ==> {
            &&& displaced.len() <= 1
            &&& displaced.len() == 1 ==> slack(programs, state.rosters) < slack(programs, st.rosters)
        },
{
    lemma_single_choice(programs, st.rosters, a, 0);
    if let SingleChoice::Take { at, program, evict: Some(w) } = single_choice(programs, st.rosters, a, 0) {
        let p = programs[program];
        let roster = st.rosters[program];
        lemma_worst_member_bound(p, roster, -1);
        lemma_rank_of(p, a.id);
        let after = roster.remove(w).push(a);
        let state = st.withdraw(program, w).enroll(program, a);
        assert(state.rosters =~= st.rosters.update(program, after));
        lemma_roster_weight_remove(p, roster, w);
        lemma_roster_weight_push(p, roster.remove(w), a);
        lemma_slack_update(programs, st.rosters, program, after, programs.len() as int);
    }
}

/// A program that has no seat for `b` has none after it has taken in an
/// applicant that applies alone.
proof fn lemma_still_turned_away(p: ProgramView, roster: Seq<ApplicantView>, a: ApplicantView, b: ApplicantView)
    requires
        turned_away(p, roster, b),
    ensures
        match single_offer(p, roster, a) {
            Offer::Open => turned_away(p, roster.push(a), b),
            Offer::Displace(w) => turned_away(p, roster.remove(w).push(a), b),
            Offer::Pass => true,
        },
{
    lemma_rank_of(p, a.id);
    lemma_rank_of(p, b.id);
    lemma_worst_member_bound(p, roster, -1);
    if p.rank_of(b.id) is Some && p.capacity > 0 {
        if let Offer::Displace(w) = single_offer(p, roster, a) {
            let after = roster.remove(w).push(a);
            assert forall|i: int| 0 <= i < after.len() && (#[trigger] after[i]).id != b.id implies p.standing(
                after[i].id,
            ) < p.standing(b.id) by {
                if i == after.len() - 1 {
                    if roster[w].id == b.id {
                    } else {
                        assert(p.standing(roster[w].id) < p.standing(b.id));
                    }
                } else if i < w {
                    assert(after[i] == roster[i]);
                } else {
                    assert(after[i] == roster[i + 1]);
                }
            }
        }
    }
}

/// Placing an applicant that applies alone leaves everybody content, and
/// the applicant itself.
proof fn lemma_place_single_content(programs: Seq<ProgramView>, st: Placement, a: ApplicantView, b: ApplicantView)
    requires
        st.rosters.len() == programs.len(),
        content(programs, st, b),
    ensures
        place_single(programs, st, a) matches Placed::Done { state, .. } ==> content(programs, state, b),
{
    lemma_single_choice(programs, st.rosters, a, 0);
    law_walk_takes_first_seat(programs, st.rosters, a, 0);
    if let Placed::Done { state, displaced } = place_single(programs, st, a) {
        let choice = single_choice(programs, st.rosters, a, 0);
        // whom a program has no seat for, it has none for afterwards
        assert forall|j: int| 0 <= j < b.ranking.len() && walked_past(programs, st.rosters, b, j) implies walked_past(
            programs,
            state.rosters,
            b,
            j,
        ) by {
            let pj = find_program(programs, b.ranking[j]).unwrap();
            lemma_find_program(programs, b.ranking[j]);
            if let SingleChoice::Take { at, program, evict } = choice {
                lemma_worst_member_bound(programs[program], st.rosters[program], -1);
                if pj == program {
                    lemma_still_turned_away(programs[program], st.rosters[program], a, b);
                } else {
                    assert(state.rosters[pj] == st.rosters[pj]);
                }
            }
        }
        assert forall|q: int, j: int|
            #![trigger seated(state, q, b), walked_past(programs, state.rosters, b, j)]
            seated(state, q, b) && before_seat(programs, b, q, j) implies walked_past(
            programs,
            state.rosters,
            b,
            j,
        ) by {
            if seated(st, q, b) {
                assert(walked_past(programs, st.rosters, b, j));
            } else {
                lemma_new_seat(programs, st, a, q, b);
                if let SingleChoice::Take { at, program, evict } = choice {
                    if j >= at {
                        assert(find_program(programs, b.ranking[at]) != Some(q));
                    }
                    assert(walked_past(programs, st.rosters, a, j));
                }
            }
        }
        assert forall|j: int|
            #![trigger walked_past(programs, state.rosters, b, j)]
            shelved(state, b) && 0 <= j < b.ranking.len() implies walked_past(programs, state.rosters, b, j) by {
            if shelved(st, b) {
                assert(walked_past(programs, st.rosters, b, j));
            } else {
                lemma_new_seat(programs, st, a, 0, b);
                assert(walked_past(programs, st.rosters, a, j));
            }
        }
    }
}

/// Placing an applicant that applies alone seats nobody anew but the
/// applicant, at the program it takes, and shelves nobody anew but the
/// applicant, when its list is exhausted.
proof fn lemma_new_seat(programs: Seq<ProgramView>, st: Placement, a: ApplicantView, q: int, b: ApplicantView)
    requires
        st.rosters.len() == programs.len(),
    ensures
        place_single(programs, st, a) matches Placed::Done { state, .. } ==> {
            &&& seated(state, q, b) && !seated(st, q, b) ==> b == a && (single_choice(
                programs,
                st.rosters,
                a,
                0,
            ) matches SingleChoice::Take { program, .. } && program == q)
            &&& shelved(state, b) && !shelved(st, b) ==> b == a && single_choice(
                programs,
                st.rosters,
                a,
                0,
            ) is Exhausted
        },
{
    lemma_single_choice(programs, st.rosters, a, 0);
    if let Placed::Done { state, displaced } = place_single(programs, st, a) {
        match single_choice(programs, st.rosters, a, 0) {
            SingleChoice::Take { at, program, evict } => {
                lemma_worst_member_bound(programs[program], st.rosters[program], -1);
                if seated(state, q, b) && !seated(st, q, b) {
                    let i = choose|i: int| 0 <= i < state.rosters[q].len() && state.rosters[q][i] == b;
                    let old = st.rosters[program];
                    if q == program {
                        match evict {
                            Some(w) => {
                                if i < old.len() - 1 {
                                    if i < w {
                                        assert(old[i] == b);
                                    } else {
                                        assert(old[i + 1] == b);
                                    }
                                }
                            },
                            None => {
                                if i < old.len() {
                                    assert(old[i] == b);
                                }
                            },
                        }
                    } else {
                        assert(state.rosters[q] == st.rosters[q]);
                    }
                }
            },
            SingleChoice::Exhausted => {
                if shelved(state, b) && !shelved(st, b) {
                    let i = choose|i: int| 0 <= i < state.unmatched.len() && state.unmatched[i] == b;
                    if i < st.unmatched.len() {
                        assert(st.unmatched[i] == b);
                    }
                }
            },
            _ => {},
        }
    }
}

/// Placing an applicant without partner leaves the rosters without couples,
/// and so the work it leaves behind.
proof fn lemma_place_single_loners(programs: Seq<ProgramView>, st: Placement, a: ApplicantView)
    requires
        st.rosters.len() == programs.len(),
        loners(st),
        a.couple is None,
    ensures
        place_single(programs, st, a) matches Placed::Done { state, displaced } ==> loners(state) && lone_tasks(
            displaced,
        ) && state.rosters.len() == programs.len(),
{
    lemma_single_choice(programs, st.rosters, a, 0);
    if let Placed::Done { state, displaced } = place_single(programs, st, a) {
        if let SingleChoice::Take { at, program, evict } = single_choice(programs, st.rosters, a, 0) {
            lemma_worst_member_bound(programs[program], st.rosters[program], -1);
            let old = st.rosters[program];
            assert forall|p: int, i: int|
                0 <= p < state.rosters.len() && 0 <= i < state.rosters[p].len() implies (#[trigger] state.rosters[p][i]).couple is None by {
                if p == program {
                    match evict {
                        Some(w) => {
                            if i < old.len() - 1 {
                                if i < w {
                                    assert(state.rosters[p][i] == old[i]);
                                } else {
                                    assert(state.rosters[p][i] == old[i + 1]);
                                }
                            }
                        },
                        None => {
                            if i < old.len() {
                                assert(state.rosters[p][i] == old[i]);
                            }
                        },
                    }
                } else {
                    assert(state.rosters[p][i] == st.rosters[p][i]);
                }
            }
        }
    }
}

/// Working off a cascade of applicants without partner leaves everybody
/// content: such a cascade is over before its budget is, where the budget
/// is more than the rosters weigh.
proof fn lemma_settle_content(
    programs: Seq<ProgramView>,
    st: Placement,
    tasks: Seq<Task>,
    budget: nat,
    b: ApplicantView,
)
    requires
        sound(programs, st.rosters),
        loners(st),
        lone_tasks(tasks),
        tasks.len() <= 1,
        tasks.len() == 1 ==> slack(programs, st.rosters) < budget,
        content(programs, st, b),
    ensures
        settle(programs, st, tasks, budget) matches Ok(end) ==> content(programs, end, b) && loners(end)
            && sound(programs, end.rosters),
    decreases budget, tasks.len(),
{
    if tasks.len() > 0 {
        let top = tasks.last();
        let rest = tasks.drop_last();
        assert(tasks[tasks.len() - 1] == top);
        let unit = resolve(st, top);
        assert(unit.state == st && unit.second is None && unit.first.couple is None);
        lemma_slack_bound(programs, st.rosters, programs.len() as int);
        lemma_place_single_content(programs, st, unit.first, b);
        lemma_place_single_loners(programs, st, unit.first);
        lemma_place_single_sound(programs, st, unit.first);
        lemma_displacement_lightens(programs, st, unit.first);
        if let Placed::Done { state, displaced } = place(programs, st, unit.first, unit.second) {
            assert(rest + displaced =~= displaced);
            lemma_settle_content(programs, state, rest + displaced, (budget - 1) as nat, b);
        }
    }
}

/// **Monotone preference of programs, without couples.** Where every
/// applicant arrives alone and each cascade has a budget beyond the weight
/// of the table, the run ends with everybody content: whoever holds a seat
/// is turned away by every program that its list names before the one that
/// holds it, and whoever is unmatched by every program on its list. Such a
/// program does not rank the applicant, or has no seats, or is full of
/// applicants it likes better.
pub proof fn law_nobody_envies(programs: Seq<ProgramView>, units: Seq<UnitView>, budget: nat, b: ApplicantView)
    requires
        all_alone(units),
        table_weight(programs) < budget,
    ensures
        run(programs, units, budget) matches Ok(end) ==> content(programs, end, b) && loners(end)
            && sound(programs, end.rosters),
    decreases units.len(),
{
    if units.len() == 0 {
        let st = vacant(programs.len());
        assert forall|q: int| !seated(st, q, b) by {}
        lemma_run_sound(programs, units, budget);
    } else {
        let front = units.drop_last();
        assert forall|i: int| 0 <= i < front.len() implies (#[trigger] front[i]).1 is None && front[i].0.couple is None by {
            assert(front[i] == units[i]);
        }
        law_nobody_envies(programs, front, budget, b);
        if let Ok(st) = run(programs, front, budget) {
            assert(units[units.len() - 1] == units.last());
            lemma_slack_bound(programs, st.rosters, programs.len() as int);
            lemma_settle_content(programs, st, seq![Task::Arrive(units.last().0, units.last().1)], budget, b);
        }
    }
}

} // verus!
