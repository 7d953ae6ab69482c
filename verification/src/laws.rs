//! What holds of every assignment that the matching procedure reaches.

use vstd::prelude::*;
use crate::models::{ApplicantView, ProgramView, UnitView};
use crate::placement::{ApartOffer, Offer, PairChoice, Placed, Placement, SingleChoice, Task, TogetherOffer, all_seats, apart_offer, filled, find_program, joint_len, locate_partner, orderly, pair_choice, partner_in, partner_in_rosters, place, place_pair, place_single, program_ids, ranks_all, resolve, run, settle, single_choice, single_offer, spare_seats, together_offer, within_capacity, worst_member};

verus! {

/// The weakest member is a member, and not the one left aside.
pub proof fn lemma_worst_member_bound(p: ProgramView, roster: Seq<ApplicantView>, skip: int)
    ensures
        -1 <= worst_member(p, roster, skip) < roster.len(),
        worst_member(p, roster, skip) != skip || skip == -1,
        worst_member(p, roster, skip) == -1 <==> (roster.len() == 0 || (roster.len() == 1 && skip == 0)),
    decreases roster.len(),
{
    if roster.len() > 0 {
        lemma_worst_member_bound(p, roster.drop_last(), skip);
    }
}

/// A ranked applicant may join a roster.
pub proof fn lemma_enroll_orderly(programs: Seq<ProgramView>, st: Placement, p: int, a: ApplicantView)
    requires
        orderly(programs, st.rosters),
        0 <= p < programs.len(),
        programs[p].rank_of(a.id) is Some,
    ensures
        orderly(programs, st.enroll(p, a).rosters),
{
    let after = st.enroll(p, a).rosters;
    assert forall|q: int| 0 <= q < programs.len() implies ranks_all(#[trigger] programs[q], after[q]) by {
        assert(ranks_all(programs[q], st.rosters[q]));
        if q == p {
            assert forall|i: int| 0 <= i < after[q].len() implies (#[trigger] programs[q].rank_of(
                after[q][i].id,
            )) is Some by {
                if i < st.rosters[q].len() {
                    assert(after[q][i] == st.rosters[q][i]);
                }
            }
        }
    }
}

/// A member may leave its roster.
pub proof fn lemma_withdraw_orderly(programs: Seq<ProgramView>, st: Placement, p: int, i: int)
    requires
        orderly(programs, st.rosters),
        0 <= p < programs.len(),
        0 <= i < st.rosters[p].len(),
    ensures
        orderly(programs, st.withdraw(p, i).rosters),
{
    let after = st.withdraw(p, i).rosters;
    assert forall|q: int| 0 <= q < programs.len() implies ranks_all(#[trigger] programs[q], after[q]) by {
        assert(ranks_all(programs[q], st.rosters[q]));
        if q == p {
            assert forall|j: int| 0 <= j < after[q].len() implies (#[trigger] programs[q].rank_of(
                after[q][j].id,
            )) is Some by {
                if j < i {
                    assert(after[q][j] == st.rosters[q][j]);
                } else {
                    assert(after[q][j] == st.rosters[q][j + 1]);
                }
            }
        }
    }
}

/// The seats of the first `n` programs are among the seats of all.
pub proof fn lemma_all_seats_grow(programs: Seq<ProgramView>, n: int)
    requires
        0 <= n <= programs.len(),
    ensures
        0 <= all_seats(programs.take(n)) <= all_seats(programs),
    decreases programs.len() - n,
{
    if n < programs.len() {
        assert(programs.take(n + 1).drop_last() == programs.take(n));
        lemma_all_seats_grow(programs, n + 1);
    } else {
        assert(programs.take(n) == programs);
    }
    lemma_all_seats_bound(programs.take(n));
}

/// No program has fewer than no seats.
pub proof fn lemma_all_seats_bound(programs: Seq<ProgramView>)
    ensures
        0 <= all_seats(programs),
    decreases programs.len(),
{
    if programs.len() > 0 {
        lemma_all_seats_bound(programs.drop_last());
    }
}

/// Where no roster is over capacity, the spare seats of the first `n`
/// programs are among the spare seats of all.
pub proof fn lemma_spare_seats_grow(matches: Seq<(ProgramView, Seq<ApplicantView>)>, n: int)
    requires
        0 <= n <= matches.len(),
        within_capacity(matches),
    ensures
        0 <= spare_seats(matches.take(n)) <= spare_seats(matches),
    decreases matches.len() - n,
{
    if n < matches.len() {
        assert(matches.take(n + 1).drop_last() == matches.take(n));
        assert(matches.take(n + 1).last() == matches[n]);
        lemma_spare_seats_grow(matches, n + 1);
    } else {
        assert(matches.take(n) == matches);
    }
    lemma_spare_seats_bound(matches.take(n));
}

/// Where no roster is over capacity, no seats are owed.
pub proof fn lemma_spare_seats_bound(matches: Seq<(ProgramView, Seq<ApplicantView>)>)
    requires
        within_capacity(matches),
    ensures
        0 <= spare_seats(matches),
    decreases matches.len(),
{
    if matches.len() > 0 {
        let front = matches.drop_last();
        assert forall|p: int| 0 <= p < front.len() implies (#[trigger] front[p]).1.len() <= front[p].0.capacity by {
            assert(front[p] == matches[p]);
        }
        lemma_spare_seats_bound(front);
        assert(matches.last() == matches[matches.len() - 1]);
    }
}

/// What a lookup in the table finds: the first program with the identifier.
pub proof fn lemma_find_program(programs: Seq<ProgramView>, id: u32)
    ensures
        match find_program(programs, id) {
            Some(p) => {
                &&& 0 <= p < programs.len()
                &&& programs[p].id == id
                &&& forall|q: int| 0 <= q < p ==> (#[trigger] programs[q]).id != id
            },
            None => forall|q: int| 0 <= q < programs.len() ==> (#[trigger] programs[q]).id != id,
        },
{
    let ids = program_ids(programs);
    ids.index_of_first_ensures(id);
    match find_program(programs, id) {
        Some(p) => {
            assert forall|q: int| 0 <= q < p implies (#[trigger] programs[q]).id != id by {
                assert(ids[q] != id);
            }
        },
        None => {
            assert forall|q: int| 0 <= q < programs.len() implies (#[trigger] programs[q]).id != id by {
                assert(ids[q] == programs[q].id);
            }
        },
    }
}

/// A program ranks exactly the applicants that its list names.
pub proof fn lemma_rank_of(p: ProgramView, applicant: u32)
    ensures
        p.rank_of(applicant) is Some <==> p.ranked().contains(applicant),
        p.rank_of(applicant) matches Some(r) ==> 0 <= r < p.ranking.len() && p.ranking[r].0
            == applicant,
{
    p.ranked().index_of_first_ensures(applicant);
    if let Some(r) = p.rank_of(applicant) {
        assert(p.ranked()[r] == applicant);
    }
}

/// Where the walk of a single applicant takes a seat, the entry is on its
/// list, names the program, and the program offers that seat.
pub proof fn lemma_single_choice(
    programs: Seq<ProgramView>,
    rosters: Seq<Seq<ApplicantView>>,
    a: ApplicantView,
    k: int,
)
    requires
        0 <= k,
    ensures
        match single_choice(programs, rosters, a, k) {
            SingleChoice::Take { at, program, evict } => {
                &&& k <= at < a.ranking.len()
                &&& find_program(programs, a.ranking[at]) == Some(program)
                &&& 0 <= program < programs.len()
                &&& programs[program].id == a.ranking[at]
                &&& single_offer(programs[program], rosters[program], a) == match evict {
                    Some(w) => Offer::Displace(w),
                    None => Offer::Open,
                }
            },
            _ => true,
        },
    decreases a.ranking.len() - k,
{
    if k < a.ranking.len() {
        lemma_find_program(programs, a.ranking[k]);
        lemma_single_choice(programs, rosters, a, k + 1);
    }
}

/// Where the walk of a couple takes seats, the entry is on its joint list,
/// names the programs, and the programs offer those seats.
pub proof fn lemma_pair_choice(
    programs: Seq<ProgramView>,
    rosters: Seq<Seq<ApplicantView>>,
    a: ApplicantView,
    b: ApplicantView,
    k: int,
)
    requires
        0 <= k,
    ensures
        match pair_choice(programs, rosters, a, b, k) {
            PairChoice::Together { at, program, offer } => {
                &&& k <= at < joint_len(a, b)
                &&& a.ranking[at] == b.ranking[at]
                &&& find_program(programs, a.ranking[at]) == Some(program)
                &&& 0 <= program < programs.len()
                &&& programs[program].id == a.ranking[at]
                &&& together_offer(programs[program], rosters[program], a, b) == offer
                &&& offer !is Pass
            },
            PairChoice::Apart { at, first, second, offers } => {
                &&& k <= at < joint_len(a, b)
                &&& a.ranking[at] != b.ranking[at]
                &&& find_program(programs, a.ranking[at]) == Some(first)
                &&& find_program(programs, b.ranking[at]) == Some(second)
                &&& 0 <= first < programs.len()
                &&& 0 <= second < programs.len()
                &&& first != second
                &&& programs[first].id == a.ranking[at]
                &&& programs[second].id == b.ranking[at]
                &&& apart_offer(
                    programs[first],
                    rosters[first],
                    programs[second],
                    rosters[second],
                    a,
                    b,
                ) == offers
                &&& offers !is Pass
            },
            _ => true,
        },
    decreases joint_len(a, b) - k,
{
    if k < joint_len(a, b) {
        lemma_find_program(programs, a.ranking[k]);
        lemma_find_program(programs, b.ranking[k]);
        lemma_pair_choice(programs, rosters, a, b, k + 1);
    }
}

/// Whether the program lists the applicant and the applicant the program.
pub open spec fn listed_both_ways(p: ProgramView, m: ApplicantView) -> bool {
    p.ranked().contains(m.id) && m.ranking.contains(p.id)
}

/// Whether an assignment is sound: there is one roster for each program of
/// the table, no roster is longer than its program has seats, and every
/// member of a roster is listed by the program and lists it.
pub open spec fn sound(programs: Seq<ProgramView>, rosters: Seq<Seq<ApplicantView>>) -> bool {
    &&& rosters.len() == programs.len()
    &&& forall|p: int| 0 <= p < programs.len() ==> (#[trigger] rosters[p]).len() <= programs[p].capacity
    &&& forall|p: int, i: int|
        0 <= p < programs.len() && 0 <= i < rosters[p].len() ==> listed_both_ways(
            programs[p],
            #[trigger] rosters[p][i],
        )
}

/// A sound assignment stays sound when a program with a free seat takes in
/// an applicant that it lists and that lists it.
pub proof fn lemma_enroll_sound(programs: Seq<ProgramView>, st: Placement, p: int, a: ApplicantView)
    requires
        sound(programs, st.rosters),
        0 <= p < programs.len(),
        st.rosters[p].len() < programs[p].capacity,
        listed_both_ways(programs[p], a),
    ensures
        sound(programs, st.enroll(p, a).rosters),
        st.enroll(p, a).rosters[p].len() == st.rosters[p].len() + 1,
        forall|q: int| 0 <= q < programs.len() && q != p ==> st.enroll(p, a).rosters[q] == st.rosters[q],
{
    let after = st.enroll(p, a).rosters;
    assert forall|q: int, i: int| 0 <= q < programs.len() && 0 <= i < after[q].len() implies listed_both_ways(
        programs[q],
        #[trigger] after[q][i],
    ) by {
        if q == p && i == st.rosters[p].len() {
        } else {
            assert(after[q][i] == st.rosters[q][i]);
        }
    }
}

/// A sound assignment stays sound when a member leaves its roster.
pub proof fn lemma_withdraw_sound(programs: Seq<ProgramView>, st: Placement, p: int, i: int)
    requires
        sound(programs, st.rosters),
        0 <= p < programs.len(),
        0 <= i < st.rosters[p].len(),
    ensures
        sound(programs, st.withdraw(p, i).rosters),
        st.withdraw(p, i).rosters[p].len() == st.rosters[p].len() - 1,
        forall|q: int| 0 <= q < programs.len() && q != p ==> st.withdraw(p, i).rosters[q] == st.rosters[q],
{
    let after = st.withdraw(p, i).rosters;
    assert forall|q: int, j: int| 0 <= q < programs.len() && 0 <= j < after[q].len() implies listed_both_ways(
        programs[q],
        #[trigger] after[q][j],
    ) by {
        if q == p && j >= i {
            assert(after[q][j] == st.rosters[q][j + 1]);
        } else {
            assert(after[q][j] == st.rosters[q][j]);
        }
    }
}

/// Placing a single applicant keeps a sound assignment sound.
pub proof fn lemma_place_single_sound(programs: Seq<ProgramView>, st: Placement, a: ApplicantView)
    requires
        sound(programs, st.rosters),
    ensures
        place_single(programs, st, a) matches Placed::Done { state, .. } ==> sound(programs, state.rosters),
{
    lemma_single_choice(programs, st.rosters, a, 0);
    match single_choice(programs, st.rosters, a, 0) {
        SingleChoice::Take { at, program, evict } => {
            let p = programs[program];
            lemma_rank_of(p, a.id);
            assert(a.ranking.contains(p.id)) by {
                assert(a.ranking[at] == p.id);
            }
            match evict {
                None => {
                    lemma_enroll_sound(programs, st, program, a);
                },
                Some(w) => {
                    lemma_worst_member_bound(p, st.rosters[program], -1);
                    lemma_withdraw_sound(programs, st, program, w);
                    lemma_enroll_sound(programs, st.withdraw(program, w), program, a);
                },
            }
        },
        _ => {},
    }
}

/// Placing a couple keeps a sound assignment sound.
pub proof fn lemma_place_pair_sound(
    programs: Seq<ProgramView>,
    st: Placement,
    a: ApplicantView,
    b: ApplicantView,
)
    requires
        sound(programs, st.rosters),
    ensures
        place_pair(programs, st, a, b) matches Placed::Done { state, .. } ==> sound(programs, state.rosters),
{
    lemma_pair_choice(programs, st.rosters, a, b, 0);
    match pair_choice(programs, st.rosters, a, b, 0) {
        PairChoice::Together { at, program, offer } => {
            let p = programs[program];
            let roster = st.rosters[program];
            lemma_rank_of(p, a.id);
            lemma_rank_of(p, b.id);
            assert(a.ranking.contains(p.id)) by {
                assert(a.ranking[at] == p.id);
            }
            assert(b.ranking.contains(p.id)) by {
                assert(b.ranking[at] == p.id);
            }
            match offer {
                TogetherOffer::DisplaceOne(w) => {
                    lemma_worst_member_bound(p, roster, -1);
                    let s1 = st.withdraw(program, w);
                    lemma_withdraw_sound(programs, st, program, w);
                    lemma_enroll_sound(programs, s1, program, a);
                    lemma_enroll_sound(programs, s1.enroll(program, a), program, b);
                },
                TogetherOffer::DisplaceTwo(w1, w2) => {
                    lemma_worst_member_bound(p, roster, -1);
                    lemma_worst_member_bound(p, roster, w1);
                    let hi = if w1 < w2 {
                        w2
                    } else {
                        w1
                    };
                    let lo = if w1 < w2 {
                        w1
                    } else {
                        w2
                    };
                    let s1 = st.withdraw(program, hi);
                    lemma_withdraw_sound(programs, st, program, hi);
                    let s2 = s1.withdraw(program, lo);
                    lemma_withdraw_sound(programs, s1, program, lo);
                    lemma_enroll_sound(programs, s2, program, a);
                    lemma_enroll_sound(programs, s2.enroll(program, a), program, b);
                },
                _ => {
                    lemma_enroll_sound(programs, st, program, a);
                    lemma_enroll_sound(programs, st.enroll(program, a), program, b);
                },
            }
        },
        PairChoice::Apart { at, first, second, offers } => {
            let p0 = programs[first];
            let p1 = programs[second];
            lemma_rank_of(p0, a.id);
            lemma_rank_of(p1, b.id);
            assert(a.ranking.contains(p0.id)) by {
                assert(a.ranking[at] == p0.id);
            }
            assert(b.ranking.contains(p1.id)) by {
                assert(b.ranking[at] == p1.id);
            }
            match offers {
                ApartOffer::Displace(w0, w1) => {
                    lemma_worst_member_bound(p0, st.rosters[first], -1);
                    lemma_worst_member_bound(p1, st.rosters[second], -1);
                    let s1 = st.withdraw(first, w0);
                    lemma_withdraw_sound(programs, st, first, w0);
                    let s2 = s1.withdraw(second, w1);
                    lemma_withdraw_sound(programs, s1, second, w1);
                    let s3 = s2.enroll(first, a);
                    lemma_enroll_sound(programs, s2, first, a);
                    lemma_enroll_sound(programs, s3, second, b);
                },
                _ => {
                    lemma_enroll_sound(programs, st, first, a);
                    lemma_enroll_sound(programs, st.enroll(first, a), second, b);
                },
            }
        },
        _ => {},
    }
}

/// What the search of one group for a partner finds: the first member that
/// names the applicant.
pub proof fn lemma_partner_in(group: Seq<ApplicantView>, id: u32)
    ensures
        match partner_in(group, id) {
            Some(i) => 0 <= i < group.len() && group[i].couple == Some(id),
            None => forall|j: int| 0 <= j < group.len() ==> (#[trigger] group[j]).couple != Some(id),
        },
{
    let links = Seq::new(group.len(), |i: int| group[i].couple);
    links.index_of_first_ensures(Some(id));
    match partner_in(group, id) {
        Some(i) => {
            assert(links[i] == group[i].couple);
        },
        None => {
            assert forall|j: int| 0 <= j < group.len() implies (#[trigger] group[j]).couple != Some(id) by {
                assert(links[j] == group[j].couple);
            }
        },
    }
}

/// What the search of the rosters from `from` on finds.
pub proof fn lemma_partner_in_rosters(rosters: Seq<Seq<ApplicantView>>, id: u32, from: int)
    requires
        0 <= from,
    ensures
        match partner_in_rosters(rosters, id, from) {
            Some((p, i)) => from <= p < rosters.len() && 0 <= i < rosters[p].len() && rosters[p][i].couple
                == Some(id),
            None => forall|p: int, j: int|
                from <= p < rosters.len() && 0 <= j < rosters[p].len() ==> (#[trigger] rosters[p][j]).couple
                    != Some(id),
        },
    decreases rosters.len() - from,
{
    if from < rosters.len() {
        lemma_partner_in(rosters[from], id);
        lemma_partner_in_rosters(rosters, id, from + 1);
    }
}

/// What the search for a partner finds: a roster member that names the
/// applicant, or that no roster holds such a member.
pub proof fn lemma_locate_partner(rosters: Seq<Seq<ApplicantView>>, id: u32, near: (int, int))
    ensures
        match locate_partner(rosters, id, near) {
            Some((p, i)) => 0 <= p < rosters.len() && 0 <= i < rosters[p].len() && rosters[p][i].couple
                == Some(id),
            None => forall|p: int, j: int|
                0 <= p < rosters.len() && 0 <= j < rosters[p].len() ==> (#[trigger] rosters[p][j]).couple
                    != Some(id),
        },
{
    if 0 <= near.0 < rosters.len() {
        lemma_partner_in(rosters[near.0], id);
    }
    if 0 <= near.1 < rosters.len() {
        lemma_partner_in(rosters[near.1], id);
    }
    lemma_partner_in_rosters(rosters, id, 0);
}

/// Taking a partner out keeps a sound assignment sound.
pub proof fn lemma_resolve_sound(programs: Seq<ProgramView>, st: Placement, task: Task)
    requires
        sound(programs, st.rosters),
    ensures
        sound(programs, resolve(st, task).state.rosters),
{
    if let Task::Retry { who, near } = task {
        lemma_locate_partner(st.rosters, who.id, near);
        if let Some((p, i)) = locate_partner(st.rosters, who.id, near) {
            lemma_withdraw_sound(programs, st, p, i);
        }
    }
}

/// Working off a cascade keeps a sound assignment sound.
pub proof fn lemma_settle_sound(programs: Seq<ProgramView>, st: Placement, tasks: Seq<Task>, budget: nat)
    requires
        sound(programs, st.rosters),
    ensures
        settle(programs, st, tasks, budget) matches Ok(end) ==> sound(programs, end.rosters),
    decreases budget, tasks.len(),
{
    if tasks.len() > 0 {
        let unit = resolve(st, tasks.last());
        lemma_resolve_sound(programs, st, tasks.last());
        if budget == 0 {
            lemma_settle_sound(programs, unit.state.shelve_unit(unit.first, unit.second), tasks.drop_last(), 0);
        } else {
            match unit.second {
                Some(b) => lemma_place_pair_sound(programs, unit.state, unit.first, b),
                None => lemma_place_single_sound(programs, unit.state, unit.first),
            }
            if let Placed::Done { state, displaced } = place(programs, unit.state, unit.first, unit.second) {
                lemma_settle_sound(programs, state, tasks.drop_last() + displaced, (budget - 1) as nat);
            }
        }
    }
}

/// Every assignment that a run ends in is sound.
pub proof fn lemma_run_sound(programs: Seq<ProgramView>, units: Seq<UnitView>, budget: nat)
    ensures
        run(programs, units, budget) matches Ok(end) ==> sound(programs, end.rosters),
    decreases units.len(),
{
    if units.len() > 0 {
        lemma_run_sound(programs, units.drop_last(), budget);
        if let Ok(st) = run(programs, units.drop_last(), budget) {
            lemma_settle_sound(programs, st, seq![Task::Arrive(units.last().0, units.last().1)], budget);
        }
    }
}

/// **Capacity bound.** After a run no program holds more applicants than it
/// has seats.
pub proof fn law_capacity_bound(programs: Seq<ProgramView>, units: Seq<UnitView>, budget: nat)
    ensures
        run(programs, units, budget) matches Ok(end) ==> {
            &&& end.rosters.len() == programs.len()
            &&& forall|p: int| 0 <= p < programs.len() ==> (#[trigger] end.rosters[p]).len() <= programs[p].capacity
        },
{
    lemma_run_sound(programs, units, budget);
}

/// **Membership consistency.** After a run every applicant that a program
/// holds is named on the program's list, and names the program on its own.
pub proof fn law_membership_consistency(programs: Seq<ProgramView>, units: Seq<UnitView>, budget: nat)
    ensures
        run(programs, units, budget) matches Ok(end) ==> forall|p: int, i: int|
            0 <= p < programs.len() && 0 <= i < end.rosters[p].len() ==> {
                &&& programs[p].ranked().contains((#[trigger] end.rosters[p][i]).id)
                &&& end.rosters[p][i].ranking.contains(programs[p].id)
            },
{
    lemma_run_sound(programs, units, budget);
    if let Ok(end) = run(programs, units, budget) {
        assert forall|p: int, i: int| 0 <= p < programs.len() && 0 <= i < end.rosters[p].len() implies {
            &&& programs[p].ranked().contains((#[trigger] end.rosters[p][i]).id)
            &&& end.rosters[p][i].ranking.contains(programs[p].id)
        } by {
            assert(listed_both_ways(programs[p], end.rosters[p][i]));
        }
    }
}

/// The programs that hold somebody hold no more than they have seats for,
/// where no roster is over capacity.
pub proof fn lemma_filled_within_capacity(programs: Seq<ProgramView>, rosters: Seq<Seq<ApplicantView>>)
    requires
        programs.len() <= rosters.len(),
        forall|p: int| 0 <= p < programs.len() ==> (#[trigger] rosters[p]).len() <= programs[p].capacity,
    ensures
        within_capacity(filled(programs, rosters)),
    decreases programs.len(),
{
    if programs.len() > 0 {
        let front = programs.drop_last();
        assert forall|p: int| 0 <= p < front.len() implies (#[trigger] rosters[p]).len() <= front[p].capacity by {
            assert(front[p] == programs[p]);
        }
        lemma_filled_within_capacity(front, rosters);
        let before = filled(front, rosters);
        let all = filled(programs, rosters);
        assert forall|q: int| 0 <= q < all.len() implies (#[trigger] all[q]).1.len() <= all[q].0.capacity by {
            if q < before.len() {
                assert(all[q] == before[q]);
            }
        }
    }
}

} // verus!
