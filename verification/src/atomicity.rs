//! Couples move as one: after a run the two members of a couple sit at the
//! same entry of their joint list, or both are unmatched.

use vstd::prelude::*;
use vstd::multiset::Multiset;
use vstd::seq_lib::to_multiset_contains;
use crate::conservation::{
    arrived, everyone, held, lemma_none_waiting, lemma_one_waiting, lemma_unit_members, one,
    task_members, unit_members, waiting,
};
use crate::laws::{
    lemma_locate_partner, lemma_pair_choice, lemma_partner_in, lemma_single_choice,
    lemma_worst_member_bound, sound,
};
use crate::models::{ApplicantView, ProgramView, UnitView};
use crate::placement::{
    ApartOffer, PairChoice, Placed, Placement, SingleChoice, Task, TogetherOffer, displaced_pair,
    find_program, joint_len, locate_partner, pair_choice, partner_in, partners, place, place_pair,
    place_single, resolve, run, settle, single_choice, vacant,
};

verus! {

/// Whether program `p` holds `x`.
pub open spec fn seated(st: Placement, p: int, x: ApplicantView) -> bool {
    0 <= p < st.rosters.len() && st.rosters[p].contains(x)
}

/// Whether `x` is among the unmatched.
pub open spec fn shelved(st: Placement, x: ApplicantView) -> bool {
    st.unmatched.contains(x)
}

/// Whether `x` and `y` sit at entry `k` of their joint list: `x` with the
/// program that entry `k` of its list names, `y` with the one that entry `k`
/// of its own list names.
pub open spec fn together_at(
    programs: Seq<ProgramView>,
    st: Placement,
    x: ApplicantView,
    y: ApplicantView,
    k: int,
) -> bool {
    &&& 0 <= k < joint_len(x, y)
    &&& find_program(programs, x.ranking[k]) matches Some(p) && seated(st, p, x)
    &&& find_program(programs, y.ranking[k]) matches Some(q) && seated(st, q, y)
}

/// Whether `x` and `y` are placed as one: both unmatched, or both seated at
/// one entry of their joint list.
pub open spec fn together(programs: Seq<ProgramView>, st: Placement, x: ApplicantView, y: ApplicantView) -> bool {
    (shelved(st, x) && shelved(st, y)) || exists|k: int| together_at(programs, st, x, y, k)
}

/// Whether `x` is where it was: in every roster that held it, and among the
/// unmatched if it was there.
pub open spec fn kept(st: Placement, after: Placement, x: ApplicantView) -> bool {
    &&& forall|p: int| seated(st, p, x) ==> seated(after, p, x)
    &&& shelved(st, x) ==> shelved(after, x)
}

/// Who stays where it is stays together with its partner.
pub proof fn lemma_together_kept(
    programs: Seq<ProgramView>,
    st: Placement,
    after: Placement,
    x: ApplicantView,
    y: ApplicantView,
)
    requires
        together(programs, st, x, y),
        kept(st, after, x),
        kept(st, after, y),
    ensures
        together(programs, after, x, y),
{
    if !(shelved(st, x) && shelved(st, y)) {
        let k = choose|k: int| together_at(programs, st, x, y, k);
        assert(together_at(programs, after, x, y, k));
    }
}

/// Joining a roster moves nobody else.
pub proof fn lemma_enroll_kept(st: Placement, p: int, a: ApplicantView, x: ApplicantView)
    requires
        0 <= p < st.rosters.len(),
    ensures
        kept(st, st.enroll(p, a), x),
        seated(st.enroll(p, a), p, a),
        st.enroll(p, a).rosters.len() == st.rosters.len(),
{
    let after = st.enroll(p, a);
    assert forall|q: int| seated(st, q, x) implies seated(after, q, x) by {
        let i = choose|i: int| 0 <= i < st.rosters[q].len() && st.rosters[q][i] == x;
        if q == p {
            assert(after.rosters[q][i] == x);
        }
    }
    assert(after.rosters[p][st.rosters[p].len() as int] == a);
}

/// Leaving a roster moves nobody but the one that leaves.
pub proof fn lemma_withdraw_kept(st: Placement, p: int, i: int, x: ApplicantView)
    requires
        0 <= p < st.rosters.len(),
        0 <= i < st.rosters[p].len(),
        x != st.rosters[p][i],
    ensures
        kept(st, st.withdraw(p, i), x),
        st.withdraw(p, i).rosters.len() == st.rosters.len(),
{
    let after = st.withdraw(p, i);
    assert forall|q: int| seated(st, q, x) implies seated(after, q, x) by {
        let j = choose|j: int| 0 <= j < st.rosters[q].len() && st.rosters[q][j] == x;
        if q == p {
            if j < i {
                assert(after.rosters[q][j] == x);
            } else {
                assert(after.rosters[q][j - 1] == x);
            }
        }
    }
}

/// Joining the unmatched moves nobody else.
pub proof fn lemma_shelve_kept(st: Placement, a: ApplicantView, x: ApplicantView)
    ensures
        kept(st, st.shelve(a), x),
        shelved(st.shelve(a), a),
        st.shelve(a).rosters == st.rosters,
{
    let after = st.shelve(a);
    if shelved(st, x) {
        let i = choose|i: int| 0 <= i < st.unmatched.len() && st.unmatched[i] == x;
        assert(after.unmatched[i] == x);
    }
    assert(after.unmatched[st.unmatched.len() as int] == a);
}

/// Who waits in the work that one displaced applicant leaves behind.
pub proof fn lemma_retry_waits(who: ApplicantView, near: (int, int))
    ensures
        waiting(seq![Task::Retry { who, near }]).count(who) > 0,
{
    lemma_one_waiting(Task::Retry { who, near }, who);
}

/// Who waits in the work that two displaced applicants leave behind.
pub proof fn lemma_pair_waits(first: ApplicantView, second: ApplicantView, near: (int, int))
    ensures
        waiting(displaced_pair(first, second, near)).count(first) > 0,
        waiting(displaced_pair(first, second, near)).count(second) > 0,
{
    crate::conservation::lemma_displaced_pair_waiting(first, second, near, first);
    crate::conservation::lemma_displaced_pair_waiting(first, second, near, second);
}

/// Placing a single applicant moves nobody but those it displaces, and they
/// wait.
pub proof fn lemma_place_single_kept(
    programs: Seq<ProgramView>,
    st: Placement,
    a: ApplicantView,
    x: ApplicantView,
)
    requires
        st.rosters.len() == programs.len(),
    ensures
        place_single(programs, st, a) matches Placed::Done { state, displaced } ==> kept(st, state, x)
            || waiting(displaced).count(x) > 0,
{
    lemma_single_choice(programs, st.rosters, a, 0);
    match single_choice(programs, st.rosters, a, 0) {
        SingleChoice::Exhausted => {
            lemma_shelve_kept(st, a, x);
        },
        SingleChoice::Take { at, program, evict: None } => {
            lemma_enroll_kept(st, program, a, x);
        },
        SingleChoice::Take { at, program, evict: Some(w) } => {
            lemma_worst_member_bound(programs[program], st.rosters[program], -1);
            let out = st.rosters[program][w];
            if x == out {
                lemma_retry_waits(out, (program, program));
            } else {
                let s1 = st.withdraw(program, w);
                lemma_withdraw_kept(st, program, w, x);
                lemma_enroll_kept(s1, program, a, x);
            }
        },
        _ => {},
    }
}

/// Placing a couple moves nobody but those it displaces, and they wait.
pub proof fn lemma_place_pair_kept(
    programs: Seq<ProgramView>,
    st: Placement,
    a: ApplicantView,
    b: ApplicantView,
    x: ApplicantView,
)
    requires
        st.rosters.len() == programs.len(),
    ensures
        place_pair(programs, st, a, b) matches Placed::Done { state, displaced } ==> kept(st, state, x)
            || waiting(displaced).count(x) > 0,
{
    lemma_pair_choice(programs, st.rosters, a, b, 0);
    match pair_choice(programs, st.rosters, a, b, 0) {
        PairChoice::Exhausted => {
            lemma_shelve_kept(st, a, x);
            lemma_shelve_kept(st.shelve(a), b, x);
        },
        PairChoice::Together { at, program: p, offer } => {
            let roster = st.rosters[p];
            match offer {
                TogetherOffer::DisplaceOne(w) => {
                    lemma_worst_member_bound(programs[p], roster, -1);
                    if x == roster[w] {
                        lemma_retry_waits(roster[w], (p, p));
                    } else {
                        let s1 = st.withdraw(p, w);
                        lemma_withdraw_kept(st, p, w, x);
                        lemma_enroll_kept(s1, p, a, x);
                        lemma_enroll_kept(s1.enroll(p, a), p, b, x);
                    }
                },
                TogetherOffer::DisplaceTwo(w1, w2) => {
                    lemma_worst_member_bound(programs[p], roster, -1);
                    lemma_worst_member_bound(programs[p], roster, w1);
                    if x == roster[w1] || x == roster[w2] {
                        lemma_pair_waits(roster[w1], roster[w2], (p, p));
                    } else {
                        let hi = if w1 < w2 {
                            w2
                        } else {
                            w1
                        };
                        let lo = if w1 < w2 {
                            w1
                        } else {
                            w2
                        };
                        let s1 = st.withdraw(p, hi);
                        let s2 = s1.withdraw(p, lo);
                        lemma_withdraw_kept(st, p, hi, x);
                        assert(s1.rosters[p][lo] == roster[lo]);
                        lemma_withdraw_kept(s1, p, lo, x);
                        lemma_enroll_kept(s2, p, a, x);
                        lemma_enroll_kept(s2.enroll(p, a), p, b, x);
                    }
                },
                _ => {
                    lemma_enroll_kept(st, p, a, x);
                    lemma_enroll_kept(st.enroll(p, a), p, b, x);
                },
            }
        },
        PairChoice::Apart { at, first: p0, second: p1, offers } => {
            match offers {
                ApartOffer::Displace(w0, w1) => {
                    lemma_worst_member_bound(programs[p0], st.rosters[p0], -1);
                    lemma_worst_member_bound(programs[p1], st.rosters[p1], -1);
                    let out0 = st.rosters[p0][w0];
                    let out1 = st.rosters[p1][w1];
                    if x == out0 || x == out1 {
                        lemma_pair_waits(out0, out1, (p0, p1));
                    } else {
                        let s1 = st.withdraw(p0, w0);
                        let s2 = s1.withdraw(p1, w1);
                        lemma_withdraw_kept(st, p0, w0, x);
                        assert(s1.rosters[p1] == st.rosters[p1]);
                        lemma_withdraw_kept(s1, p1, w1, x);
                        lemma_enroll_kept(s2, p0, a, x);
                        lemma_enroll_kept(s2.enroll(p0, a), p1, b, x);
                    }
                },
                _ => {
                    lemma_enroll_kept(st, p0, a, x);
                    lemma_enroll_kept(st.enroll(p0, a), p1, b, x);
                },
            }
        },
        _ => {},
    }
}

/// A couple that is placed is placed as one.
pub proof fn lemma_place_pair_together(
    programs: Seq<ProgramView>,
    st: Placement,
    a: ApplicantView,
    b: ApplicantView,
)
    requires
        st.rosters.len() == programs.len(),
    ensures
        place_pair(programs, st, a, b) matches Placed::Done { state, .. } ==> together(programs, state, a, b),
{
    lemma_pair_choice(programs, st.rosters, a, b, 0);
    match pair_choice(programs, st.rosters, a, b, 0) {
        PairChoice::Exhausted => {
            lemma_shelve_kept(st, a, a);
            lemma_shelve_kept(st.shelve(a), b, a);
        },
        PairChoice::Together { at, program: p, offer } => {
            let roster = st.rosters[p];
            let base = match offer {
                TogetherOffer::DisplaceOne(w) => st.withdraw(p, w),
                TogetherOffer::DisplaceTwo(w1, w2) => st.withdraw(p, if w1 < w2 {
                    w2
                } else {
                    w1
                }).withdraw(p, if w1 < w2 {
                    w1
                } else {
                    w2
                }),
                _ => st,
            };
            lemma_worst_member_bound(programs[p], roster, -1);
            if let TogetherOffer::DisplaceTwo(w1, w2) = offer {
                lemma_worst_member_bound(programs[p], roster, w1);
            }
            assert(base.rosters.len() == st.rosters.len());
            lemma_enroll_kept(base, p, a, a);
            lemma_enroll_kept(base.enroll(p, a), p, b, a);
            assert(together_at(programs, base.enroll(p, a).enroll(p, b), a, b, at));
        },
        PairChoice::Apart { at, first: p0, second: p1, offers } => {
            lemma_worst_member_bound(programs[p0], st.rosters[p0], -1);
            lemma_worst_member_bound(programs[p1], st.rosters[p1], -1);
            let base = match offers {
                ApartOffer::Displace(w0, w1) => st.withdraw(p0, w0).withdraw(p1, w1),
                _ => st,
            };
            assert(base.rosters.len() == st.rosters.len());
            lemma_enroll_kept(base, p0, a, a);
            lemma_enroll_kept(base.enroll(p0, a), p1, b, a);
            assert(together_at(programs, base.enroll(p0, a).enroll(p1, b), a, b, at));
        },
        _ => {},
    }
}

/// Turning a task into a unit moves nobody but the partner that joins the
/// unit.
pub proof fn lemma_resolve_kept(st: Placement, task: Task, x: ApplicantView)
    ensures
        kept(st, resolve(st, task).state, x) || resolve(st, task).second == Some(x),
        resolve(st, task).state.rosters.len() == st.rosters.len(),
{
    if let Task::Retry { who, near } = task {
        if who.couple is Some {
            lemma_locate_partner(st.rosters, who.id, near);
            match locate_partner(st.rosters, who.id, near) {
                Some((p, i)) => {
                    if x != st.rosters[p][i] {
                        lemma_withdraw_kept(st, p, i, x);
                    }
                },
                None => {
                    lemma_partner_in(st.unmatched, who.id);
                    if let Some(i) = partner_in(st.unmatched, who.id) {
                        let after = resolve(st, task).state;
                        if x != st.unmatched[i] && shelved(st, x) {
                            let j = choose|j: int| 0 <= j < st.unmatched.len() && st.unmatched[j] == x;
                            if j < i {
                                assert(after.unmatched[j] == x);
                            } else {
                                assert(after.unmatched[j - 1] == x);
                            }
                        }
                    }
                },
            }
        }
    }
}

/// Whether `x` waits in `tasks`.
pub open spec fn pending(tasks: Seq<Task>, x: ApplicantView) -> bool {
    waiting(tasks).count(x) > 0
}

/// Whether no applicant occurs twice in `u` and no two share an identifier.
pub open spec fn distinct(u: Multiset<ApplicantView>) -> bool {
    &&& forall|x: ApplicantView| #[trigger] u.count(x) <= 1
    &&& forall|x: ApplicantView, y: ApplicantView|
        #![trigger u.count(x), u.count(y)]
        u.count(x) > 0 && u.count(y) > 0 && x.id == y.id ==> x == y
}

/// Whether `y` is in `u` and is the partner of `x`, another applicant.
pub open spec fn mate(u: Multiset<ApplicantView>, x: ApplicantView, y: ApplicantView) -> bool {
    u.count(y) > 0 && partners(x, y) && x.id != y.id
}

/// Whether everyone in `u` that names a partner has that partner in `u`.
pub open spec fn mated(u: Multiset<ApplicantView>) -> bool {
    forall|x: ApplicantView| #[trigger]
        u.count(x) > 0 && x.couple is Some ==> exists|y: ApplicantView| mate(u, x, y)
}

/// Whether every unit that waits in `tasks` is a couple of partners or an
/// applicant without partner.
pub open spec fn units_sound(tasks: Seq<Task>) -> bool {
    forall|i: int|
        0 <= i < tasks.len() ==> match #[trigger] tasks[i] {
            Task::Arrive(a, Some(b)) => partners(a, b),
            Task::Arrive(a, None) => a.couple is None,
            _ => true,
        }
}

/// Whether the couple `x`, `y` is placed as one, or one of the two waits.
pub open spec fn settled(
    programs: Seq<ProgramView>,
    st: Placement,
    tasks: Seq<Task>,
    x: ApplicantView,
    y: ApplicantView,
) -> bool {
    pending(tasks, x) || pending(tasks, y) || together(programs, st, x, y)
}

/// What holds while a cascade is worked off: everyone of `u` is placed or
/// waits, and every couple is placed as one unless one of the two waits.
pub open spec fn steady(
    programs: Seq<ProgramView>,
    u: Multiset<ApplicantView>,
    st: Placement,
    tasks: Seq<Task>,
) -> bool {
    &&& st.rosters.len() == programs.len()
    &&& u == everyone(st).add(waiting(tasks))
    &&& units_sound(tasks)
    &&& forall|x: ApplicantView, y: ApplicantView|
        #![trigger partners(x, y)]
        u.count(x) > 0 && u.count(y) > 0 && partners(x, y) ==> settled(programs, st, tasks, x, y)
}

/// Whether `x` is a member of the unit `first`, `second`.
pub open spec fn in_unit(first: ApplicantView, second: Option<ApplicantView>, x: ApplicantView) -> bool {
    x == first || second == Some(x)
}

/// What holds while a unit is taken out to be placed.
pub open spec fn in_hand(
    programs: Seq<ProgramView>,
    u: Multiset<ApplicantView>,
    st: Placement,
    rest: Seq<Task>,
    first: ApplicantView,
    second: Option<ApplicantView>,
) -> bool {
    &&& st.rosters.len() == programs.len()
    &&& u == everyone(st).add(unit_members(first, second)).add(waiting(rest))
    &&& units_sound(rest)
    &&& second matches Some(b) ==> partners(first, b)
    &&& second is None ==> forall|y: ApplicantView|
        #![trigger partners(first, y)]
        u.count(y) > 0 && partners(first, y) ==> pending(rest, y)
    &&& forall|x: ApplicantView, y: ApplicantView|
        #![trigger partners(x, y)]
        u.count(x) > 0 && u.count(y) > 0 && partners(x, y) ==> in_unit(first, second, x) || in_unit(
            first,
            second,
            y,
        ) || settled(programs, st, rest, x, y)
}

/// Whoever names `x` as its partner is the partner of `x`.
pub proof fn lemma_named_is_partner(u: Multiset<ApplicantView>, x: ApplicantView, z: ApplicantView)
    requires
        distinct(u),
        mated(u),
        u.count(x) > 0,
        u.count(z) > 0,
        z.couple == Some(x.id),
    ensures
        partners(x, z),
        x != z,
{
    let other = choose|y: ApplicantView| mate(u, z, y);
    assert(mate(u, z, other));
    assert(u.count(other) > 0 && u.count(x) > 0 && other.id == x.id);
}

/// Nobody has two partners.
pub proof fn lemma_one_partner(u: Multiset<ApplicantView>, x: ApplicantView, y: ApplicantView, z: ApplicantView)
    requires
        distinct(u),
        u.count(y) > 0,
        u.count(z) > 0,
        partners(x, y),
        partners(x, z),
    ensures
        y == z,
{
    assert(u.count(y) > 0 && u.count(z) > 0 && y.id == z.id);
}

/// Who is held by some roster sits in one.
pub proof fn lemma_held_seated(rosters: Seq<Seq<ApplicantView>>, x: ApplicantView)
    ensures
        held(rosters).count(x) > 0 <==> exists|p: int| 0 <= p < rosters.len() && (#[trigger] rosters[p]).contains(x),
    decreases rosters.len(),
{
    if rosters.len() > 0 {
        let front = rosters.drop_last();
        let last = rosters.len() - 1;
        lemma_held_seated(front, x);
        to_multiset_contains(rosters.last(), x);
        assert(held(rosters) == held(front).add(rosters.last().to_multiset()));
        if held(rosters).count(x) > 0 {
            if rosters.last().contains(x) {
                assert(rosters[last].contains(x));
            } else {
                let p = choose|p: int| 0 <= p < front.len() && (#[trigger] front[p]).contains(x);
                assert(rosters[p].contains(x));
            }
        }
        if exists|p: int| 0 <= p < rosters.len() && (#[trigger] rosters[p]).contains(x) {
            let p = choose|p: int| 0 <= p < rosters.len() && (#[trigger] rosters[p]).contains(x);
            if p < last {
                assert(front[p].contains(x));
            }
        }
    }
}

/// Who is accounted for by an assignment sits in a roster or is unmatched.
pub proof fn lemma_everyone_placed(st: Placement, x: ApplicantView)
    ensures
        everyone(st).count(x) > 0 <==> shelved(st, x) || exists|p: int| seated(st, p, x),
{
    lemma_held_seated(st.rosters, x);
    to_multiset_contains(st.unmatched, x);
    if held(st.rosters).count(x) > 0 {
        let p = choose|p: int| 0 <= p < st.rosters.len() && (#[trigger] st.rosters[p]).contains(x);
        assert(seated(st, p, x));
    }
    if exists|p: int| seated(st, p, x) {
        let p = choose|p: int| seated(st, p, x);
        assert(st.rosters[p].contains(x));
    }
}

/// Taking the next unit out of a steady cascade leaves it in hand.
pub proof fn lemma_resolve_in_hand(
    programs: Seq<ProgramView>,
    u: Multiset<ApplicantView>,
    st: Placement,
    tasks: Seq<Task>,
)
    requires
        distinct(u),
        mated(u),
        steady(programs, u, st, tasks),
        tasks.len() > 0,
    ensures
        in_hand(
            programs,
            u,
            resolve(st, tasks.last()).state,
            tasks.drop_last(),
            resolve(st, tasks.last()).first,
            resolve(st, tasks.last()).second,
        ),
{
    let top = tasks.last();
    let rest = tasks.drop_last();
    let unit = resolve(st, top);
    let s1 = unit.state;
    let first = unit.first;
    let second = unit.second;
    assert(waiting(tasks) == waiting(rest).add(task_members(top)));
    lemma_resolve_kept(st, top, first);
    assert forall|x: ApplicantView| u.count(x) == everyone(s1).add(unit_members(first, second)).add(
        waiting(rest),
    ).count(x) by {
        crate::conservation::lemma_resolve_everyone(st, top, x);
    }
    assert(u =~= everyone(s1).add(unit_members(first, second)).add(waiting(rest)));
    assert(units_sound(rest)) by {
        assert forall|i: int| 0 <= i < rest.len() implies match #[trigger] rest[i] {
            Task::Arrive(a, Some(b)) => partners(a, b),
            Task::Arrive(a, None) => a.couple is None,
            _ => true,
        } by {
            assert(rest[i] == tasks[i]);
        }
    }
    assert(tasks[tasks.len() - 1] == top);
    lemma_unit_members(first, second, first);
    assert(u.count(first) > 0);
    // the shape of the unit
    match top {
        Task::Arrive(a, b) => {},
        Task::Retry { who, near } => {
            if who.couple is Some {
                lemma_locate_partner(st.rosters, who.id, near);
                lemma_partner_in(st.unmatched, who.id);
                match second {
                    Some(m) => {
                        lemma_unit_members(first, second, m);
                        lemma_named_is_partner(u, who, m);
                    },
                    None => {
                        assert forall|y: ApplicantView|
                            #![trigger partners(first, y)]
                            u.count(y) > 0 && partners(first, y) implies pending(rest, y) by {
                            lemma_everyone_placed(st, y);
                            if shelved(st, y) {
                                let j = choose|j: int| 0 <= j < st.unmatched.len() && st.unmatched[j] == y;
                                assert(st.unmatched[j].couple == Some(who.id));
                            }
                            if exists|p: int| seated(st, p, y) {
                                let p = choose|p: int| seated(st, p, y);
                                let j = choose|j: int| 0 <= j < st.rosters[p].len() && st.rosters[p][j] == y;
                                assert(st.rosters[p][j].couple == Some(who.id));
                            }
                            lemma_named_is_partner(u, who, y);
                        }
                    },
                }
            }
        },
    }
    assert forall|x: ApplicantView, y: ApplicantView|
        #![trigger partners(x, y)]
        u.count(x) > 0 && u.count(y) > 0 && partners(x, y) implies in_unit(first, second, x) || in_unit(
        first,
        second,
        y,
    ) || settled(programs, s1, rest, x, y) by {
        if !in_unit(first, second, x) && !in_unit(first, second, y) && !pending(rest, x) && !pending(
            rest,
            y,
        ) {
            assert(settled(programs, st, tasks, x, y));
            lemma_unit_members(first, second, x);
            lemma_unit_members(first, second, y);
            crate::conservation::lemma_resolve_everyone(st, top, x);
            crate::conservation::lemma_resolve_everyone(st, top, y);
            match top {
                Task::Arrive(a, b) => {
                    lemma_unit_members(a, b, x);
                    lemma_unit_members(a, b, y);
                },
                Task::Retry { who, near } => {},
            }
            assert(!pending(tasks, x));
            assert(!pending(tasks, y));
            lemma_resolve_kept(st, top, x);
            lemma_resolve_kept(st, top, y);
            lemma_together_kept(programs, st, s1, x, y);
        }
    }
}

/// The work that a placement leaves behind holds couples of partners only.
pub proof fn lemma_displaced_sound(programs: Seq<ProgramView>, st: Placement, a: ApplicantView, b: Option<ApplicantView>)
    ensures
        place(programs, st, a, b) matches Placed::Done { displaced, .. } ==> units_sound(displaced),
{
}

/// Sound work added to sound work is sound.
pub proof fn lemma_units_sound_add(tasks: Seq<Task>, more: Seq<Task>)
    requires
        units_sound(tasks),
        units_sound(more),
    ensures
        units_sound(tasks + more),
{
    assert forall|i: int| 0 <= i < (tasks + more).len() implies match #[trigger] (tasks + more)[i] {
        Task::Arrive(a, Some(b)) => partners(a, b),
        Task::Arrive(a, None) => a.couple is None,
        _ => true,
    } by {
        if i < tasks.len() {
            assert((tasks + more)[i] == tasks[i]);
        } else {
            assert((tasks + more)[i] == more[i - tasks.len()]);
        }
    }
}

/// What the couple `x`, `y` comes to when the unit in hand is placed or
/// shelved: it is placed as one, or one of the two waits.
proof fn lemma_hand_settles(
    programs: Seq<ProgramView>,
    u: Multiset<ApplicantView>,
    st: Placement,
    rest: Seq<Task>,
    first: ApplicantView,
    second: Option<ApplicantView>,
    after: Placement,
    more: Seq<Task>,
    x: ApplicantView,
    y: ApplicantView,
)
    requires
        distinct(u),
        mated(u),
        in_hand(programs, u, st, rest, first, second),
        u.count(x) > 0,
        u.count(y) > 0,
        partners(x, y),
        second matches Some(b) ==> together(programs, after, first, b),
        kept(st, after, x) || pending(more, x),
        kept(st, after, y) || pending(more, y),
    ensures
        settled(programs, after, rest + more, x, y),
{
    crate::conservation::lemma_waiting_add(rest, more, x);
    crate::conservation::lemma_waiting_add(rest, more, y);
    lemma_unit_members(first, second, first);
    if pending(rest, x) || pending(rest, y) || pending(more, x) || pending(more, y) {
    } else if in_unit(first, second, x) || in_unit(first, second, y) {
        match second {
            Some(b) => {
                lemma_unit_members(first, second, b);
                assert(u.count(first) > 0 && u.count(b) > 0);
                if x == first {
                    lemma_one_partner(u, x, y, b);
                } else if y == first {
                    lemma_one_partner(u, y, x, b);
                } else if x == b {
                    lemma_one_partner(u, x, y, first);
                } else {
                    lemma_one_partner(u, y, x, first);
                }
                if x == first {
                    assert(together(programs, after, x, y));
                } else {
                    lemma_together_swap(programs, after, y, x);
                }
            },
            None => {
                if x == first {
                    assert(partners(first, y));
                } else {
                    assert(partners(first, x));
                }
            },
        }
    } else {
        assert(settled(programs, st, rest, x, y));
        lemma_together_kept(programs, st, after, x, y);
    }
}

/// Being placed as one does not depend on who of the two is named first.
pub proof fn lemma_together_swap(programs: Seq<ProgramView>, st: Placement, x: ApplicantView, y: ApplicantView)
    requires
        together(programs, st, x, y),
    ensures
        together(programs, st, y, x),
{
    if !(shelved(st, x) && shelved(st, y)) {
        let k = choose|k: int| together_at(programs, st, x, y, k);
        assert(together_at(programs, st, y, x, k));
    }
}

/// Placing the unit in hand leaves the cascade steady.
pub proof fn lemma_place_steady(
    programs: Seq<ProgramView>,
    u: Multiset<ApplicantView>,
    st: Placement,
    rest: Seq<Task>,
    first: ApplicantView,
    second: Option<ApplicantView>,
)
    requires
        distinct(u),
        mated(u),
        in_hand(programs, u, st, rest, first, second),
    ensures
        place(programs, st, first, second) matches Placed::Done { state, displaced } ==> steady(
            programs,
            u,
            state,
            rest + displaced,
        ),
{
    if let Placed::Done { state, displaced } = place(programs, st, first, second) {
        assert forall|x: ApplicantView| u.count(x) == everyone(state).add(waiting(rest + displaced)).count(
            x,
        ) by {
            lemma_unit_members(first, second, x);
            match second {
                Some(b) => crate::conservation::lemma_place_pair_everyone(programs, st, first, b, x),
                None => crate::conservation::lemma_place_single_everyone(programs, st, first, x),
            }
            crate::conservation::lemma_waiting_add(rest, displaced, x);
        }
        assert(u =~= everyone(state).add(waiting(rest + displaced)));
        crate::conservation::lemma_place_single_everyone(programs, st, first, first);
        if let Some(b) = second {
            crate::conservation::lemma_place_pair_everyone(programs, st, first, b, first);
            lemma_place_pair_together(programs, st, first, b);
        }
        lemma_displaced_sound(programs, st, first, second);
        lemma_units_sound_add(rest, displaced);
        assert forall|x: ApplicantView, y: ApplicantView|
            #![trigger partners(x, y)]
            u.count(x) > 0 && u.count(y) > 0 && partners(x, y) implies settled(
            programs,
            state,
            rest + displaced,
            x,
            y,
        ) by {
            match second {
                Some(b) => {
                    lemma_place_pair_kept(programs, st, first, b, x);
                    lemma_place_pair_kept(programs, st, first, b, y);
                },
                None => {
                    lemma_place_single_kept(programs, st, first, x);
                    lemma_place_single_kept(programs, st, first, y);
                },
            }
            lemma_hand_settles(programs, u, st, rest, first, second, state, displaced, x, y);
        }
    }
}

/// Shelving the unit in hand leaves the cascade steady.
pub proof fn lemma_shelve_steady(
    programs: Seq<ProgramView>,
    u: Multiset<ApplicantView>,
    st: Placement,
    rest: Seq<Task>,
    first: ApplicantView,
    second: Option<ApplicantView>,
)
    requires
        distinct(u),
        mated(u),
        in_hand(programs, u, st, rest, first, second),
    ensures
        steady(programs, u, st.shelve_unit(first, second), rest),
{
    let after = st.shelve_unit(first, second);
    let none = Seq::<Task>::empty();
    assert(rest + none =~= rest);
    assert forall|x: ApplicantView| u.count(x) == everyone(after).add(waiting(rest)).count(x) by {
        crate::conservation::lemma_shelve_unit_everyone(st, first, second, x);
    }
    assert(u =~= everyone(after).add(waiting(rest)));
    lemma_shelve_kept(st, first, first);
    if let Some(b) = second {
        lemma_shelve_kept(st.shelve(first), b, first);
    }
    assert forall|x: ApplicantView, y: ApplicantView|
        #![trigger partners(x, y)]
        u.count(x) > 0 && u.count(y) > 0 && partners(x, y) implies settled(programs, after, rest, x, y) by {
        lemma_shelve_kept(st, first, x);
        lemma_shelve_kept(st, first, y);
        if let Some(b) = second {
            lemma_shelve_kept(st.shelve(first), b, x);
            lemma_shelve_kept(st.shelve(first), b, y);
        }
        lemma_hand_settles(programs, u, st, rest, first, second, after, none, x, y);
    }
}

/// Working off a steady cascade ends with every couple placed as one.
pub proof fn lemma_settle_steady(
    programs: Seq<ProgramView>,
    u: Multiset<ApplicantView>,
    st: Placement,
    tasks: Seq<Task>,
    budget: nat,
)
    requires
        distinct(u),
        mated(u),
        steady(programs, u, st, tasks),
    ensures
        settle(programs, st, tasks, budget) matches Ok(end) ==> steady(programs, u, end, Seq::empty()),
    decreases budget, tasks.len(),
{
    if tasks.len() == 0 {
        assert(tasks =~= Seq::<Task>::empty());
    } else {
        let unit = resolve(st, tasks.last());
        let rest = tasks.drop_last();
        lemma_resolve_in_hand(programs, u, st, tasks);
        if budget == 0 {
            lemma_shelve_steady(programs, u, unit.state, rest, unit.first, unit.second);
            lemma_settle_steady(programs, u, unit.state.shelve_unit(unit.first, unit.second), rest, 0);
        } else {
            lemma_place_steady(programs, u, unit.state, rest, unit.first, unit.second);
            if let Placed::Done { state, displaced } = place(programs, unit.state, unit.first, unit.second) {
                lemma_settle_steady(programs, u, state, rest + displaced, (budget - 1) as nat);
            }
        }
    }
}

/// Whether the arriving units are well formed: no applicant arrives twice,
/// no two applicants share an identifier, the two members of a couple name
/// each other as partner, and who arrives alone names no partner.
pub open spec fn well_formed(units: Seq<UnitView>) -> bool {
    &&& distinct(arrived(units))
    &&& forall|i: int|
        0 <= i < units.len() ==> match (#[trigger] units[i]).1 {
            Some(b) => partners(units[i].0, b) && units[i].0.id != b.id,
            None => units[i].0.couple is None,
        }
}

/// Who arrived is a member of one of the units.
pub proof fn lemma_arrived_member(units: Seq<UnitView>, x: ApplicantView)
    ensures
        arrived(units).count(x) > 0 <==> exists|i: int|
            0 <= i < units.len() && in_unit((#[trigger] units[i]).0, units[i].1, x),
    decreases units.len(),
{
    if units.len() > 0 {
        let front = units.drop_last();
        let last = units.len() - 1;
        lemma_arrived_member(front, x);
        lemma_unit_members(units.last().0, units.last().1, x);
        assert(arrived(units) == arrived(front).add(unit_members(units.last().0, units.last().1)));
        if arrived(units).count(x) > 0 {
            if in_unit(units.last().0, units.last().1, x) {
                assert(in_unit(units[last].0, units[last].1, x));
            } else {
                let i = choose|i: int| 0 <= i < front.len() && in_unit((#[trigger] front[i]).0, front[i].1, x);
                assert(in_unit(units[i].0, units[i].1, x));
            }
        }
        if exists|i: int| 0 <= i < units.len() && in_unit((#[trigger] units[i]).0, units[i].1, x) {
            let i = choose|i: int| 0 <= i < units.len() && in_unit((#[trigger] units[i]).0, units[i].1, x);
            if i < last {
                assert(in_unit(front[i].0, front[i].1, x));
            }
        }
    }
}

/// Among well-formed units everyone that names a partner arrives with it.
pub proof fn lemma_well_formed_mated(units: Seq<UnitView>)
    requires
        well_formed(units),
    ensures
        mated(arrived(units)),
{
    let u = arrived(units);
    assert forall|x: ApplicantView| #[trigger] u.count(x) > 0 && x.couple is Some implies exists|
        y: ApplicantView,
    | mate(u, x, y) by {
        lemma_arrived_member(units, x);
        let i = choose|i: int| 0 <= i < units.len() && in_unit((#[trigger] units[i]).0, units[i].1, x);
        match units[i].1 {
            Some(b) => {
                let y = if x == units[i].0 {
                    b
                } else {
                    units[i].0
                };
                lemma_arrived_member(units, y);
                assert(in_unit(units[i].0, units[i].1, y));
                assert(mate(u, x, y));
            },
            None => {},
        }
    }
}

/// Well-formed units without the last are well formed.
pub proof fn lemma_well_formed_front(units: Seq<UnitView>)
    requires
        well_formed(units),
        units.len() > 0,
    ensures
        well_formed(units.drop_last()),
{
    let front = units.drop_last();
    let u = arrived(units);
    let v = arrived(front);
    assert(u == v.add(unit_members(units.last().0, units.last().1)));
    assert forall|x: ApplicantView| #[trigger] v.count(x) <= 1 by {
        assert(u.count(x) <= 1);
    }
    assert forall|x: ApplicantView, y: ApplicantView|
        #![trigger v.count(x), v.count(y)]
        v.count(x) > 0 && v.count(y) > 0 && x.id == y.id implies x == y by {
        assert(u.count(x) > 0 && u.count(y) > 0);
    }
    assert forall|i: int| 0 <= i < front.len() implies match (#[trigger] front[i]).1 {
        Some(b) => partners(front[i].0, b) && front[i].0.id != b.id,
        None => front[i].0.couple is None,
    } by {
        assert(front[i] == units[i]);
    }
}

/// After a run over well-formed units every couple is placed as one.
pub proof fn lemma_run_steady(programs: Seq<ProgramView>, units: Seq<UnitView>, budget: nat)
    requires
        well_formed(units),
    ensures
        run(programs, units, budget) matches Ok(end) ==> steady(
            programs,
            arrived(units),
            end,
            Seq::empty(),
        ),
    decreases units.len(),
{
    let none = Seq::<Task>::empty();
    if units.len() == 0 {
        let st = vacant(programs.len());
        assert forall|x: ApplicantView| arrived(units).count(x) == everyone(st).add(waiting(none)).count(
            x,
        ) by {
            crate::conservation::lemma_vacant_everyone(programs.len(), x);
        }
        assert(arrived(units) =~= everyone(st).add(waiting(none)));
    } else {
        let front = units.drop_last();
        let a = units.last().0;
        let b = units.last().1;
        lemma_well_formed_front(units);
        lemma_run_steady(programs, front, budget);
        if let Ok(st) = run(programs, front, budget) {
            let u = arrived(units);
            let v = arrived(front);
            let task = Task::Arrive(a, b);
            let tasks = seq![task];
            lemma_well_formed_mated(units);
            assert(units[units.len() - 1] == units.last());
            assert forall|x: ApplicantView| u.count(x) == everyone(st).add(waiting(tasks)).count(x) by {
                lemma_one_waiting(task, x);
                lemma_none_waiting(x);
            }
            assert(u =~= everyone(st).add(waiting(tasks)));
            assert forall|x: ApplicantView, y: ApplicantView|
                #![trigger partners(x, y)]
                u.count(x) > 0 && u.count(y) > 0 && partners(x, y) implies settled(
                programs,
                st,
                tasks,
                x,
                y,
            ) by {
                lemma_one_waiting(task, x);
                lemma_one_waiting(task, y);
                lemma_none_waiting(x);
                lemma_none_waiting(y);
                lemma_unit_members(a, b, x);
                lemma_unit_members(a, b, y);
                if !pending(tasks, x) && !pending(tasks, y) {
                    assert(v.count(x) > 0 && v.count(y) > 0);
                    assert(settled(programs, st, none, x, y));
                }
            }
            lemma_settle_steady(programs, u, st, tasks, budget);
        }
    }
}

/// **Couple atomicity.** After a run over well-formed units the two members
/// of every couple are both unmatched, or both hold a seat at one and the
/// same entry of their joint list: the first with the program that this
/// entry of its list names, the second with the program that this entry of
/// its own list names.
pub proof fn law_couple_atomicity(programs: Seq<ProgramView>, units: Seq<UnitView>, budget: nat)
    requires
        well_formed(units),
    ensures
        run(programs, units, budget) matches Ok(end) ==> forall|i: int|
            0 <= i < units.len() ==> ((#[trigger] units[i]).1 matches Some(b) ==> together(
                programs,
                end,
                units[i].0,
                b,
            )),
{
    lemma_run_steady(programs, units, budget);
    if let Ok(end) = run(programs, units, budget) {
        assert forall|i: int| 0 <= i < units.len() implies ((#[trigger] units[i]).1 matches Some(b)
            ==> together(programs, end, units[i].0, b)) by {
            if let Some(b) = units[i].1 {
                let a = units[i].0;
                lemma_arrived_member(units, a);
                lemma_arrived_member(units, b);
                assert(in_unit(units[i].0, units[i].1, a));
                assert(in_unit(units[i].0, units[i].1, b));
                lemma_none_waiting(a);
                lemma_none_waiting(b);
                assert(partners(a, b));
                assert(settled(programs, end, Seq::<Task>::empty(), a, b));
            }
        }
    }
}

/// Whether placing the unit `a`, `b` keeps what holds between the steps of
/// a match: a sound assignment stays sound, nobody is lost or counted
/// twice, and a couple that is placed is placed as one.
pub open spec fn well_placed(
    programs: Seq<ProgramView>,
    st: Placement,
    a: ApplicantView,
    b: Option<ApplicantView>,
) -> bool {
    place(programs, st, a, b) matches Placed::Done { state, displaced } ==> {
        &&& sound(programs, st.rosters) ==> sound(programs, state.rosters)
        &&& everyone(state).add(waiting(displaced)) == everyone(st).add(unit_members(a, b))
        &&& b matches Some(c) ==> together(programs, state, a, c)
    }
}

/// **Every step keeps the invariants.** Whatever the assignment and the
/// unit, placing the unit keeps a sound assignment sound, loses nobody and
/// counts nobody twice, and seats a couple at one entry of its joint list
/// or shelves both.
pub proof fn law_well_placed(programs: Seq<ProgramView>, st: Placement, a: ApplicantView, b: Option<ApplicantView>)
    requires
        st.rosters.len() == programs.len(),
    ensures
        well_placed(programs, st, a, b),
{
    if let Placed::Done { state, displaced } = place(programs, st, a, b) {
        assert forall|x: ApplicantView| everyone(state).add(waiting(displaced)).count(x) == everyone(st).add(
            unit_members(a, b),
        ).count(x) by {
            lemma_unit_members(a, b, x);
            match b {
                Some(c) => crate::conservation::lemma_place_pair_everyone(programs, st, a, c, x),
                None => crate::conservation::lemma_place_single_everyone(programs, st, a, x),
            }
        }
        assert(everyone(state).add(waiting(displaced)) =~= everyone(st).add(unit_members(a, b)));
        if sound(programs, st.rosters) {
            match b {
                Some(c) => crate::laws::lemma_place_pair_sound(programs, st, a, c),
                None => crate::laws::lemma_place_single_sound(programs, st, a),
            }
        }
        if let Some(c) = b {
            lemma_place_pair_together(programs, st, a, c);
        }
    }
}

} // verus!
