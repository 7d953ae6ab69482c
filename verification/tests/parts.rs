use residency_match::matcher::{weakest_member, MatchError, Matcher};
use residency_match::models::{Applicant, Couple, HasApplications, HasCapacity, HasCouple, Program};
use residency_match::notes::{note_missing, note_unlisted, numbered};
use residency_match::order::sort_by_weight;
use residency_match::parameters::MatchParameters;
use residency_match::placement::Seat;
use residency_match::ranker::{
    naive_rank_program, naive_rank_unit, rank, Competitive, RankBands, RankQuota, Rankable, ReceiveApplication,
};
use residency_match::report::{count_in, Tally};

fn someone(id: u32, score: u32, couple: Option<u32>, ranking: Vec<u32>) -> Applicant {
    Applicant { id, applications: 3, competitiveness: score, couple, ranking }
}

fn place(id: u32, capacity: u8, score: u32, ranking: Vec<(u32, u32)>) -> Program {
    Program { id, capacity, competitiveness: score, ranking }
}

#[test]
fn weakest_member_stands_last_on_the_list() {
    let p = place(1, 3, 0, vec![(10, 0), (11, 0), (12, 0), (13, 0)]);
    let a = someone(11, 0, None, vec![]);
    let b = someone(13, 0, None, vec![]);
    let c = someone(10, 0, None, vec![]);
    let roster = vec![&a, &b, &c];
    assert_eq!(weakest_member(&p, &roster, None).unwrap(), Some((1, 3)));
    assert_eq!(weakest_member(&p, &roster, Some(1)).unwrap(), Some((0, 1)));
    assert_eq!(weakest_member(&p, &Vec::new(), None).unwrap(), None);
    assert_eq!(weakest_member(&p, &vec![&a], Some(0)).unwrap(), None);
}

#[test]
fn weakest_member_of_equals_is_the_first() {
    let p = place(1, 3, 0, vec![(10, 0), (11, 0)]);
    let a = someone(11, 0, None, vec![]);
    let twin = someone(11, 5, None, vec![]);
    let roster = vec![&a, &twin];
    assert_eq!(weakest_member(&p, &roster, None).unwrap(), Some((0, 1)));
}

#[test]
fn an_unlisted_roster_member_is_reported() {
    let p = place(1, 3, 0, vec![(10, 0)]);
    let a = someone(10, 0, None, vec![]);
    let stray = someone(42, 0, None, vec![]);
    let roster = vec![&a, &stray];
    match weakest_member(&p, &roster, None) {
        Err(MatchError::ApplicantNotFound(note)) => assert_eq!(note, "roster: applicant 42"),
        _ => panic!("applicant 42 is not on the list"),
    }
    assert!(weakest_member(&p, &roster, Some(1)).is_ok());
}

#[test]
fn errors_read_as_text() {
    assert_eq!(
        MatchError::ProgramNotFound(String::from("single: program 3")).to_string(),
        "Program not found: single: program 3"
    );
    assert_eq!(
        MatchError::ApplicantNotFound(String::from("roster: applicant 9")).to_string(),
        "Applicant not found: roster: applicant 9"
    );
}

#[test]
fn numbers_are_written_in_base_ten() {
    assert_eq!(numbered("n", 0), "n0");
    assert_eq!(numbered("", 7), "7");
    assert_eq!(numbered("id ", 10), "id 10");
    assert_eq!(numbered("id ", 1203), "id 1203");
    assert_eq!(numbered("", 4294967295), "4294967295");
    assert_eq!(note_missing(12, &Seat::Single), "single: program 12");
    assert_eq!(note_missing(12, &Seat::First), "couples: first program 12");
    assert_eq!(note_missing(12, &Seat::Second), "couples: second program 12");
    assert_eq!(note_unlisted(5), "roster: applicant 5");
}

#[test]
fn getters_give_the_fields() {
    let a = someone(4, 77, Some(5), vec![1, 2]);
    assert_eq!(a.get_couple(), Some(5));
    assert_eq!(a.applications(), 3);
    assert_eq!(a.competitiveness(), 77);
    assert_eq!(a.id(), 4);
    assert_eq!(a.ranking(), vec![1, 2]);
    let p = place(9, 6, 55, vec![(4, 77), (8, 1)]);
    assert_eq!(p.capacity(), 6);
    assert_eq!(p.competitiveness(), 55);
    assert_eq!(p.id(), 9);
    assert_eq!(p.ranking(), vec![4, 8]);
    assert_eq!(p.rank_position(8), Some(1));
    assert_eq!(p.rank_position(5), None);
    let copy = p.clone();
    assert_eq!(copy.ranking, vec![(4, 77), (8, 1)]);
    assert_eq!(a.clone().ranking, vec![1, 2]);
}

#[test]
fn couples_are_made_from_pairs() {
    let both: Couple<u32> = Couple::from((1, 2));
    assert_eq!((both.0, both.1), (1, Some(2)));
    let alone: Couple<u32> = Couple::from((1, None));
    assert_eq!((alone.0, alone.1), (1, None));
    let again = both.clone();
    assert_eq!((again.0, again.1), (1, Some(2)));
}

#[test]
fn sorting_is_stable() {
    let mut scores: Vec<(u32, u32)> = vec![(1, 5), (2, 9), (3, 5), (4, 9), (5, 1)];
    sort_by_weight(&mut scores);
    assert_eq!(scores, vec![(2, 9), (4, 9), (1, 5), (3, 5), (5, 1)]);
    let mut empty: Vec<(u32, u32)> = Vec::new();
    sort_by_weight(&mut empty);
    assert!(empty.is_empty());
}

#[test]
fn add_ranking_appends() {
    let mut a = someone(4, 77, None, vec![1]);
    let p = place(9, 6, 55, vec![]);
    a.add_ranking(&p);
    assert_eq!(a.ranking, vec![1, 9]);
    let mut q = place(3, 1, 0, vec![(8, 2)]);
    q.add_ranking(&a);
    assert_eq!(q.ranking, vec![(8, 2), (4, 77)]);
}

#[test]
fn applications_are_listed_by_score() {
    let mut p = place(9, 6, 55, vec![]);
    p.receive_application(&someone(1, 50, None, vec![]));
    p.receive_application(&someone(2, 70, None, vec![]));
    p.receive_application(&someone(3, 50, None, vec![]));
    p.receive_application(&someone(4, 60, None, vec![]));
    assert_eq!(p.ranking, vec![(2, 70), (4, 60), (1, 50), (3, 50)]);
    let mut unsorted = place(9, 6, 55, vec![(7, 1), (8, 9)]);
    unsorted.receive_application(&someone(1, 5, None, vec![]));
    assert_eq!(unsorted.ranking, vec![(8, 9), (1, 5), (7, 1)]);
}

#[test]
fn naive_rank_takes_the_nearest() {
    let a = place(10, 1, 0, vec![]);
    let b = place(11, 1, 0, vec![]);
    let c = place(12, 1, 0, vec![]);
    let d = place(13, 1, 0, vec![]);
    let mut who = someone(1, 0, None, vec![99]);
    let mut near = vec![(3, &a), (1, &b), (3, &c), (0, &d)];
    who.naive_rank(&mut near, 3);
    assert_eq!(who.ranking, vec![99, 13, 11, 10]);
    assert_eq!(near.iter().map(|e| (e.0, e.1.id)).collect::<Vec<_>>(), vec![(0, 13), (1, 11), (3, 10), (3, 12)]);
    let mut few = vec![(2, &a)];
    who.naive_rank(&mut few, 200);
    assert_eq!(who.ranking, vec![99, 13, 11, 10, 10]);
}

fn five_programs() -> Vec<Program> {
    vec![
        place(10, 1, 90, vec![(5, 9)]),
        place(11, 1, 80, vec![]),
        place(12, 1, 70, vec![]),
        place(13, 1, 60, vec![]),
        place(14, 1, 50, vec![]),
    ]
}

fn bands() -> RankBands {
    RankBands { reach_floor: 85, realistic_ceiling: 85, realistic_floor: 65, safety_ceiling: 65, safety_floor: 40 }
}

#[test]
fn rank_fills_the_three_bands_in_order() {
    let mut programs = five_programs();
    let mut unit = Couple(someone(1, 7, None, vec![]), None);
    rank(&mut unit, &mut programs, &bands(), &RankQuota { reach: 2, realistic: 1, safety: 5 });
    assert_eq!(unit.0.ranking, vec![10, 11, 13, 14]);
    assert_eq!(programs[0].ranking, vec![(5, 9), (1, 7)]);
    assert_eq!(programs[1].ranking, vec![(1, 7)]);
    assert_eq!(programs[2].ranking, vec![]);
    assert_eq!(programs[3].ranking, vec![(1, 7)]);
    assert_eq!(programs[4].ranking, vec![(1, 7)]);
}

#[test]
fn rank_gives_a_couple_one_joint_list() {
    let mut programs = five_programs();
    let mut unit = Couple(someone(1, 7, Some(2), vec![]), Some(someone(2, 9, Some(1), vec![])));
    rank(&mut unit, &mut programs, &bands(), &RankQuota { reach: 1, realistic: 2, safety: 1 });
    assert_eq!(unit.0.ranking, vec![10, 11, 12, 13]);
    assert_eq!(unit.1.as_ref().unwrap().ranking, vec![10, 11, 12, 13]);
    assert_eq!(programs[0].ranking, vec![(5, 9), (2, 9), (1, 7)]);
    assert_eq!(programs[1].ranking, vec![(2, 9), (1, 7)]);
    assert_eq!(programs[4].ranking, vec![]);
}

#[test]
fn rank_with_no_quota_applies_nowhere() {
    let mut programs = five_programs();
    let mut unit = Couple(someone(1, 7, None, vec![3]), None);
    rank(&mut unit, &mut programs, &bands(), &RankQuota { reach: 0, realistic: 0, safety: 0 });
    assert_eq!(unit.0.ranking, vec![3]);
    assert_eq!(programs[0].ranking, vec![(5, 9)]);
}

#[test]
fn parameters_count_every_applicant() {
    let units = vec![
        Couple(someone(1, 0, None, vec![]), None),
        Couple(someone(2, 0, Some(3), vec![]), Some(someone(3, 0, Some(2), vec![]))),
    ];
    let bundle = MatchParameters::new(units, five_programs());
    assert_eq!(bundle.num_applicants, 3);
    assert_eq!(bundle.num_programs, 5);
    assert_eq!(bundle.applicants.len(), 2);
}

#[test]
fn report_counts_the_result() {
    let units = vec![
        Couple(someone(1, 0, None, vec![10]), None),
        Couple(someone(2, 0, Some(3), vec![11, 10]), Some(someone(3, 0, Some(2), vec![11, 10]))),
        Couple(someone(4, 0, Some(5), vec![12]), Some(someone(5, 0, Some(4), vec![12]))),
        Couple(someone(6, 0, None, vec![11, 10]), None),
    ];
    let programs = vec![
        place(10, 4, 0, vec![(1, 0), (2, 0), (3, 0), (6, 0)]),
        place(11, 1, 0, vec![(2, 0), (3, 0), (6, 0)]),
        place(12, 1, 0, vec![(4, 0), (5, 0)]),
    ];
    let mut matcher = Matcher::new();
    assert!(matcher.run_match(&units, &programs).is_ok());
    let numbers = matcher.report();
    assert_eq!(numbers.matched_programs, 2);
    assert_eq!(numbers.unfilled_positions, 1 + 1);
    assert_eq!(numbers.matched_applicants, 4);
    assert_eq!(numbers.unmatched_applicants, 2);
    assert_eq!(numbers.matched_couples, 2);
    assert_eq!(numbers.unmatched_couples, 2);
    assert_eq!(numbers.first_choice, 2);
    assert_eq!(numbers.couples_first_choice, 0);
    assert_eq!(matcher.count_matched(&Tally::Coupled), 2);
    assert_eq!(count_in(&matcher.unmatched_a, 0, &Tally::Everyone), 2);
    let (program, places) = matcher.sample().unwrap();
    assert_eq!(program.id, 10);
    assert_eq!(places, vec![Some(0), Some(1), Some(2)]);
    assert!(Matcher::new().sample().is_none());
}

#[test]
fn rank_takes_no_program_twice() {
    let mut programs = vec![place(0, 1, 995, vec![])];
    let mut unit = Couple(someone(0, 1000, None, vec![]), None);
    let wide = RankBands {
        reach_floor: 990,
        realistic_ceiling: 1050,
        realistic_floor: 950,
        safety_ceiling: 950,
        safety_floor: 900,
    };
    rank(&mut unit, &mut programs, &wide, &RankQuota { reach: 3, realistic: 5, safety: 2 });
    assert_eq!(unit.0.ranking, vec![0]);
    assert_eq!(programs[0].ranking, vec![(0, 1000)]);
}

#[test]
fn rank_takes_each_band_from_the_remaining_programs() {
    let mut programs = vec![
        place(10, 1, 90, vec![]),
        place(11, 1, 80, vec![]),
        place(12, 1, 70, vec![]),
        place(13, 1, 60, vec![]),
    ];
    let mut unit = Couple(someone(1, 7, None, vec![]), None);
    let overlapping = RankBands {
        reach_floor: 75,
        realistic_ceiling: 95,
        realistic_floor: 65,
        safety_ceiling: 100,
        safety_floor: 0,
    };
    rank(&mut unit, &mut programs, &overlapping, &RankQuota { reach: 1, realistic: 2, safety: 4 });
    assert_eq!(unit.0.ranking, vec![10, 11, 12, 13]);
    for p in programs.iter() {
        assert_eq!(p.ranking, vec![(1, 7)]);
    }
}

#[test]
fn naive_rank_unit_gives_the_partner_the_same_list() {
    let a = place(10, 1, 0, vec![]);
    let b = place(11, 1, 0, vec![]);
    let c = place(12, 1, 0, vec![]);
    let mut first = someone(1, 0, Some(2), vec![]);
    first.applications = 2;
    let mut unit = Couple(first, Some(someone(2, 0, Some(1), vec![77])));
    let mut near = vec![(5, &a), (1, &b), (3, &c)];
    naive_rank_unit(&mut unit, &mut near);
    assert_eq!(unit.0.ranking, vec![11, 12]);
    assert_eq!(unit.1.as_ref().unwrap().ranking, vec![11, 12]);
    assert_eq!(unit.1.as_ref().unwrap().id, 2);
    assert_eq!(near.iter().map(|e| e.1.id).collect::<Vec<_>>(), vec![11, 12, 10]);
    let mut alone = Couple(someone(3, 0, None, vec![9]), None);
    naive_rank_unit(&mut alone, &mut near);
    assert_eq!(alone.0.ranking, vec![9, 11, 12, 10]);
    assert!(alone.1.is_none());
}

#[test]
fn naive_rank_program_ranks_fifteen_for_each_seat() {
    let people: Vec<Applicant> = (0..40).map(|i| someone(i, i, None, vec![])).collect();
    let mut near: Vec<(u32, &Applicant)> = people.iter().map(|a| (40 - a.id, a)).collect();
    let mut p = place(9, 2, 0, vec![(99, 1)]);
    naive_rank_program(&mut p, &mut near);
    assert_eq!(p.ranking.len(), 1 + 30);
    assert_eq!(p.ranking[0], (99, 1));
    assert_eq!(p.ranking[1], (39, 39));
    assert_eq!(p.ranking[30], (10, 10));
    let mut small = place(8, 17, 0, vec![]);
    naive_rank_program(&mut small, &mut near);
    assert_eq!(small.ranking.len(), 40);
    let mut none = place(7, 0, 0, vec![]);
    naive_rank_program(&mut none, &mut near);
    assert!(none.ranking.is_empty());
}
