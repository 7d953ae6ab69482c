//! Nobody is lost and nobody is counted twice: what a run holds in its
//! rosters and among the unmatched is what arrived.

use vstd::prelude::*;
use vstd::multiset::Multiset;
use vstd::seq_lib::{to_multiset_build, to_multiset_remove};
use crate::laws::{lemma_locate_partner, lemma_pair_choice, lemma_partner_in, lemma_single_choice, lemma_worst_member_bound};
use crate::models::{ApplicantView, ProgramView, UnitView};
use crate::placement::{ApartOffer, PairChoice, Placed, Placement, SingleChoice, Task, TogetherOffer, displaced_pair, locate_partner, pair_choice, partner_in, partners, place, place_pair, place_single, resolve, run, settle, single_choice, vacant};

verus! {

/// The members of all rosters, each as often as it is held.
pub open spec fn held(rosters: Seq<Seq<ApplicantView>>) -> Multiset<ApplicantView>
    decreases rosters.len(),
{
    if rosters.len() == 0 {
        Multiset::empty()
    } else {
        held(rosters.drop_last()).add(rosters.last().to_multiset())
    }
}

/// Everyone that an assignment accounts for: the roster members and the
/// unmatched.
pub open spec fn everyone(st: Placement) -> Multiset<ApplicantView> {
    held(st.rosters).add(st.unmatched.to_multiset())
}

/// The members of a unit.
pub open spec fn unit_members(a: ApplicantView, b: Option<ApplicantView>) -> Multiset<ApplicantView> {
    match b {
        Some(b) => Multiset::singleton(a).insert(b),
        None => Multiset::singleton(a),
    }
}

/// The applicants that a task stands for.
pub open spec fn task_members(task: Task) -> Multiset<ApplicantView> {
    match task {
        Task::Arrive(a, b) => unit_members(a, b),
        Task::Retry { who, .. } => Multiset::singleton(who),
    }
}

/// The applicants that wait in `tasks`.
pub open spec fn waiting(tasks: Seq<Task>) -> Multiset<ApplicantView>
    decreases tasks.len(),
{
    if tasks.len() == 0 {
        Multiset::empty()
    } else {
        waiting(tasks.drop_last()).add(task_members(tasks.last()))
    }
}

/// The applicants of `units`, each as often as it arrives.
pub open spec fn arrived(units: Seq<UnitView>) -> Multiset<ApplicantView>
    decreases units.len(),
{
    if units.len() == 0 {
        Multiset::empty()
    } else {
        arrived(units.drop_last()).add(unit_members(units.last().0, units.last().1))
    }
}

/// 1 where `x` is `y`, else 0.
pub open spec fn one(x: ApplicantView, y: ApplicantView) -> nat {
    if x == y {
        1
    } else {
        0
    }
}

/// How often `x` is a member of the unit `a`, `b`.
pub proof fn lemma_unit_members(a: ApplicantView, b: Option<ApplicantView>, x: ApplicantView)
    ensures
        unit_members(a, b).count(x) == one(x, a) + match b {
            Some(b) => one(x, b),
            None => 0,
        },
{
}

/// Replacing one roster exchanges its members for those of the new one.
pub proof fn lemma_held_update(
    rosters: Seq<Seq<ApplicantView>>,
    p: int,
    roster: Seq<ApplicantView>,
    x: ApplicantView,
)
    requires
        0 <= p < rosters.len(),
    ensures
        held(rosters.update(p, roster)).count(x) + rosters[p].to_multiset().count(x) == held(rosters).count(
            x,
        ) + roster.to_multiset().count(x),
    decreases rosters.len(),
{
    let after = rosters.update(p, roster);
    let front = rosters.drop_last();
    assert(held(rosters) == held(front).add(rosters.last().to_multiset()));
    assert(held(after) == held(after.drop_last()).add(after.last().to_multiset()));
    if p == rosters.len() - 1 {
        assert(after.drop_last() =~= front);
        assert(after.last() == roster);
    } else {
        assert(after.drop_last() =~= front.update(p, roster));
        assert(after.last() == rosters.last());
        assert(front[p] == rosters[p]);
        lemma_held_update(front, p, roster, x);
    }
}

/// Whoever joins a roster is accounted for once more.
pub proof fn lemma_enroll_everyone(st: Placement, p: int, a: ApplicantView, x: ApplicantView)
    requires
        0 <= p < st.rosters.len(),
    ensures
        everyone(st.enroll(p, a)).count(x) == everyone(st).count(x) + one(x, a),
{
    lemma_held_update(st.rosters, p, st.rosters[p].push(a), x);
    to_multiset_build(st.rosters[p], a);
}

/// Whoever leaves a roster is accounted for once less.
pub proof fn lemma_withdraw_everyone(st: Placement, p: int, i: int, x: ApplicantView)
    requires
        0 <= p < st.rosters.len(),
        0 <= i < st.rosters[p].len(),
    ensures
        everyone(st.withdraw(p, i)).count(x) + one(x, st.rosters[p][i]) == everyone(st).count(x),
{
    lemma_held_update(st.rosters, p, st.rosters[p].remove(i), x);
    lemma_remove_count(st.rosters[p], i, x);
}

/// Whoever leaves a sequence occurs in it once less.
pub proof fn lemma_remove_count(s: Seq<ApplicantView>, i: int, x: ApplicantView)
    requires
        0 <= i < s.len(),
    ensures
        s.remove(i).to_multiset().count(x) + one(x, s[i]) == s.to_multiset().count(x),
{
    to_multiset_remove(s, i);
    assert(s.to_multiset().count(s[i]) > 0) by {
        vstd::seq_lib::to_multiset_contains(s, s[i]);
        assert(s.contains(s[i]));
    }
}

/// Whoever joins the unmatched is accounted for once more.
pub proof fn lemma_shelve_everyone(st: Placement, a: ApplicantView, x: ApplicantView)
    ensures
        everyone(st.shelve(a)).count(x) == everyone(st).count(x) + one(x, a),
{
    to_multiset_build(st.unmatched, a);
}

/// A unit that joins the unmatched is accounted for.
pub proof fn lemma_shelve_unit_everyone(
    st: Placement,
    a: ApplicantView,
    b: Option<ApplicantView>,
    x: ApplicantView,
)
    ensures
        everyone(st.shelve_unit(a, b)).count(x) == everyone(st).count(x) + unit_members(a, b).count(x),
{
    lemma_shelve_everyone(st, a, x);
    if let Some(b) = b {
        lemma_shelve_everyone(st.shelve(a), b, x);
    }
}

/// No work stands for nobody.
pub proof fn lemma_none_waiting(x: ApplicantView)
    ensures
        waiting(Seq::<Task>::empty()).count(x) == 0,
{
}

/// The work that one displaced applicant leaves behind stands for it.
pub proof fn lemma_one_waiting(task: Task, x: ApplicantView)
    ensures
        waiting(seq![task]).count(x) == task_members(task).count(x),
{
    assert(seq![task].drop_last() =~= Seq::<Task>::empty());
    lemma_none_waiting(x);
    assert(waiting(seq![task]) == waiting(seq![task].drop_last()).add(task_members(seq![task].last())));
}

/// The work that two displaced applicants leave behind stands for the two.
pub proof fn lemma_displaced_pair_waiting(
    first: ApplicantView,
    second: ApplicantView,
    near: (int, int),
    x: ApplicantView,
)
    ensures
        waiting(displaced_pair(first, second, near)).count(x) == one(x, first) + one(x, second),
{
    let tasks = displaced_pair(first, second, near);
    if partners(first, second) {
        lemma_one_waiting(Task::Arrive(first, Some(second)), x);
    } else {
        let t1 = Task::Retry { who: second, near };
        let t0 = Task::Retry { who: first, near };
        assert(tasks.drop_last() =~= seq![t1]);
        assert(tasks.last() == t0);
        lemma_one_waiting(t1, x);
        assert(waiting(tasks) == waiting(tasks.drop_last()).add(task_members(tasks.last())));
    }
}

/// Work added to work stands for the applicants of both.
pub proof fn lemma_waiting_add(tasks: Seq<Task>, more: Seq<Task>, x: ApplicantView)
    ensures
        waiting(tasks + more).count(x) == waiting(tasks).count(x) + waiting(more).count(x),
    decreases more.len(),
{
    if more.len() == 0 {
        assert(tasks + more =~= tasks);
    } else {
        assert((tasks + more).drop_last() =~= tasks + more.drop_last());
        assert((tasks + more).last() == more.last());
        lemma_waiting_add(tasks, more.drop_last(), x);
        assert(waiting(tasks + more) == waiting((tasks + more).drop_last()).add(
            task_members((tasks + more).last()),
        ));
        assert(waiting(more) == waiting(more.drop_last()).add(task_members(more.last())));
    }
}

/// Placing a single applicant accounts for it and loses nobody: who is
/// displaced waits.
pub proof fn lemma_place_single_everyone(
    programs: Seq<ProgramView>,
    st: Placement,
    a: ApplicantView,
    x: ApplicantView,
)
    requires
        st.rosters.len() == programs.len(),
    ensures
        place_single(programs, st, a) matches Placed::Done { state, displaced } ==> {
            &&& everyone(state).count(x) + waiting(displaced).count(x) == everyone(st).count(x) + one(x, a)
            &&& state.rosters.len() == programs.len()
        },
{
    lemma_single_choice(programs, st.rosters, a, 0);
    lemma_none_waiting(x);
    match single_choice(programs, st.rosters, a, 0) {
        SingleChoice::Exhausted => {
            lemma_shelve_everyone(st, a, x);
        },
        SingleChoice::Take { at, program, evict: None } => {
            lemma_enroll_everyone(st, program, a, x);
        },
        SingleChoice::Take { at, program, evict: Some(w) } => {
            lemma_worst_member_bound(programs[program], st.rosters[program], -1);
            let s1 = st.withdraw(program, w);
            lemma_withdraw_everyone(st, program, w, x);
            lemma_enroll_everyone(s1, program, a, x);
            lemma_one_waiting(Task::Retry { who: st.rosters[program][w], near: (program, program) }, x);
        },
        _ => {},
    }
}

/// Placing a couple accounts for both and loses nobody: who is displaced
/// waits.
pub proof fn lemma_place_pair_everyone(
    programs: Seq<ProgramView>,
    st: Placement,
    a: ApplicantView,
    b: ApplicantView,
    x: ApplicantView,
)
    requires
        st.rosters.len() == programs.len(),
    ensures
        place_pair(programs, st, a, b) matches Placed::Done { state, displaced } ==> {
            &&& everyone(state).count(x) + waiting(displaced).count(x) == everyone(st).count(x) + one(x, a)
                + one(x, b)
            &&& state.rosters.len() == programs.len()
        },
{
    lemma_pair_choice(programs, st.rosters, a, b, 0);
    lemma_none_waiting(x);
    match pair_choice(programs, st.rosters, a, b, 0) {
        PairChoice::Exhausted => {
            lemma_shelve_everyone(st, a, x);
            lemma_shelve_everyone(st.shelve(a), b, x);
        },
        PairChoice::Together { at, program: p, offer } => {
            let roster = st.rosters[p];
            match offer {
                TogetherOffer::DisplaceOne(w) => {
                    lemma_worst_member_bound(programs[p], roster, -1);
                    let s1 = st.withdraw(p, w);
                    lemma_withdraw_everyone(st, p, w, x);
                    lemma_enroll_everyone(s1, p, a, x);
                    lemma_enroll_everyone(s1.enroll(p, a), p, b, x);
                    lemma_one_waiting(Task::Retry { who: roster[w], near: (p, p) }, x);
                },
                TogetherOffer::DisplaceTwo(w1, w2) => {
                    lemma_worst_member_bound(programs[p], roster, -1);
                    lemma_worst_member_bound(programs[p], roster, w1);
                    let hi = if w1 < w2 {
                        w2
                    } else {
                        w1
                    };
                    let lo = if w1 < w2 {
                        w1
                    } else {
                        w2
                    };
                    let s1 = st.withdraw(p, hi);
                    let s2 = s1.withdraw(p, lo);
                    lemma_withdraw_everyone(st, p, hi, x);
                    assert(s1.rosters[p][lo] == roster[lo]);
                    lemma_withdraw_everyone(s1, p, lo, x);
                    lemma_enroll_everyone(s2, p, a, x);
                    lemma_enroll_everyone(s2.enroll(p, a), p, b, x);
                    lemma_displaced_pair_waiting(roster[w1], roster[w2], (p, p), x);
                },
                _ => {
                    lemma_enroll_everyone(st, p, a, x);
                    lemma_enroll_everyone(st.enroll(p, a), p, b, x);
                },
            }
        },
        PairChoice::Apart { at, first: p0, second: p1, offers } => {
            match offers {
                ApartOffer::Displace(w0, w1) => {
                    lemma_worst_member_bound(programs[p0], st.rosters[p0], -1);
                    lemma_worst_member_bound(programs[p1], st.rosters[p1], -1);
                    let s1 = st.withdraw(p0, w0);
                    let s2 = s1.withdraw(p1, w1);
                    lemma_withdraw_everyone(st, p0, w0, x);
                    assert(s1.rosters[p1] == st.rosters[p1]);
                    lemma_withdraw_everyone(s1, p1, w1, x);
                    lemma_enroll_everyone(s2, p0, a, x);
                    lemma_enroll_everyone(s2.enroll(p0, a), p1, b, x);
                    lemma_displaced_pair_waiting(st.rosters[p0][w0], st.rosters[p1][w1], (p0, p1), x);
                },
                _ => {
                    lemma_enroll_everyone(st, p0, a, x);
                    lemma_enroll_everyone(st.enroll(p0, a), p1, b, x);
                },
            }
        },
        _ => {},
    }
}

/// Turning a task into a unit loses nobody: the partner that is taken out
/// of the assignment is part of the unit.
pub proof fn lemma_resolve_everyone(st: Placement, task: Task, x: ApplicantView)
    ensures
        everyone(resolve(st, task).state).count(x) + unit_members(
            resolve(st, task).first,
            resolve(st, task).second,
        ).count(x) == everyone(st).count(x) + task_members(task).count(x),
        resolve(st, task).state.rosters.len() == st.rosters.len(),
{
    match task {
        Task::Arrive(a, b) => {},
        Task::Retry { who, near } => {
            if who.couple is Some {
                lemma_locate_partner(st.rosters, who.id, near);
                match locate_partner(st.rosters, who.id, near) {
                    Some((p, i)) => {
                        lemma_withdraw_everyone(st, p, i, x);
                    },
                    None => {
                        lemma_partner_in(st.unmatched, who.id);
                        match partner_in(st.unmatched, who.id) {
                            Some(i) => {
                                lemma_remove_count(st.unmatched, i, x);
                            },
                            None => {},
                        }
                    },
                }
            }
        },
    }
}

/// Working off a cascade accounts for everyone that was placed or waiting
/// before, and for nobody else.
pub proof fn lemma_settle_everyone(
    programs: Seq<ProgramView>,
    st: Placement,
    tasks: Seq<Task>,
    budget: nat,
    x: ApplicantView,
)
    requires
        st.rosters.len() == programs.len(),
    ensures
        settle(programs, st, tasks, budget) matches Ok(end) ==> {
            &&& everyone(end).count(x) == everyone(st).count(x) + waiting(tasks).count(x)
            &&& end.rosters.len() == programs.len()
        },
    decreases budget, tasks.len(),
{
    if tasks.len() > 0 {
        let unit = resolve(st, tasks.last());
        let rest = tasks.drop_last();
        lemma_resolve_everyone(st, tasks.last(), x);
        assert(waiting(tasks) == waiting(rest).add(task_members(tasks.last())));
        if budget == 0 {
            let parked = unit.state.shelve_unit(unit.first, unit.second);
            lemma_shelve_unit_everyone(unit.state, unit.first, unit.second, x);
            lemma_settle_everyone(programs, parked, rest, 0, x);
        } else {
            lemma_unit_members(unit.first, unit.second, x);
            match unit.second {
                Some(b) => lemma_place_pair_everyone(programs, unit.state, unit.first, b, x),
                None => lemma_place_single_everyone(programs, unit.state, unit.first, x),
            }
            if let Placed::Done { state, displaced } = place(programs, unit.state, unit.first, unit.second) {
                lemma_settle_everyone(programs, state, rest + displaced, (budget - 1) as nat, x);
                lemma_waiting_add(rest, displaced, x);
            }
        }
    }
}

/// Nothing is held where every roster is empty.
pub proof fn lemma_vacant_everyone(n: nat, x: ApplicantView)
    ensures
        everyone(vacant(n)).count(x) == 0,
    decreases n,
{
    let nobody = Seq::<ApplicantView>::empty();
    vstd::seq_lib::to_multiset_contains(nobody, x);
    assert(!nobody.contains(x));
    if n > 0 {
        assert(vacant(n).rosters.drop_last() =~= vacant((n - 1) as nat).rosters);
        lemma_vacant_everyone((n - 1) as nat, x);
        assert(held(vacant(n).rosters) == held(vacant(n).rosters.drop_last()).add(
            vacant(n).rosters.last().to_multiset(),
        ));
        assert(vacant(n).rosters.last() =~= nobody);
    }
}

/// How often a run accounts for `x`: as often as `x` arrived.
pub proof fn lemma_run_everyone(
    programs: Seq<ProgramView>,
    units: Seq<UnitView>,
    budget: nat,
    x: ApplicantView,
)
    ensures
        run(programs, units, budget) matches Ok(end) ==> {
            &&& everyone(end).count(x) == arrived(units).count(x)
            &&& end.rosters.len() == programs.len()
        },
    decreases units.len(),
{
    if units.len() == 0 {
        lemma_vacant_everyone(programs.len(), x);
    } else {
        lemma_run_everyone(programs, units.drop_last(), budget, x);
        if let Ok(st) = run(programs, units.drop_last(), budget) {
            let task = Task::Arrive(units.last().0, units.last().1);
            lemma_settle_everyone(programs, st, seq![task], budget, x);
            lemma_one_waiting(task, x);
        }
    }
}

/// **Disjoint placement.** After a run the rosters and the unmatched hold,
/// between them, exactly the applicants that arrived, each as often as it
/// arrived.
pub proof fn law_disjoint_placement(programs: Seq<ProgramView>, units: Seq<UnitView>, budget: nat)
    ensures
        run(programs, units, budget) matches Ok(end) ==> everyone(end) == arrived(units),
{
    if let Ok(end) = run(programs, units, budget) {
        assert forall|x: ApplicantView| everyone(end).count(x) == arrived(units).count(x) by {
            lemma_run_everyone(programs, units, budget, x);
        }
        assert(everyone(end) =~= arrived(units));
    }
}

} // verus!
