use residency_match::matcher::{cascade_budget, MatchError, Matcher};
use residency_match::models::{Applicant, Couple, Program};

fn applicant(id: u32, couple: Option<u32>, ranking: Vec<u32>) -> Applicant {
    Applicant { id, applications: ranking.len() as u8, competitiveness: 0, couple, ranking }
}

fn single(id: u32, ranking: Vec<u32>) -> Couple<Applicant> {
    Couple(applicant(id, None, ranking), None)
}

fn pair(a: u32, list_a: Vec<u32>, b: u32, list_b: Vec<u32>) -> Couple<Applicant> {
    Couple(applicant(a, Some(b), list_a), Some(applicant(b, Some(a), list_b)))
}

fn program(id: u32, capacity: u8, ranking: Vec<u32>) -> Program {
    Program { id, capacity, competitiveness: 0, ranking: ranking.into_iter().map(|a| (a, 0)).collect() }
}

fn rosters(matcher: &Matcher) -> Vec<(u32, Vec<u32>)> {
    matcher.matches.iter().map(|m| (m.0.id, m.1.iter().map(|a| a.id).collect())).collect()
}

fn unmatched(matcher: &Matcher) -> Vec<u32> {
    matcher.unmatched_a.iter().map(|a| a.id).collect()
}

fn idle(matcher: &Matcher) -> Vec<u32> {
    matcher.unmatched_p.iter().map(|p| p.id).collect()
}

#[test]
fn trivial_match() {
    let applicants = vec![single(0, vec![100])];
    let programs = vec![program(100, 1, vec![0])];
    let mut matcher = Matcher::new();
    assert!(matcher.run_match(&applicants, &programs).is_ok());
    assert_eq!(rosters(&matcher), vec![(100, vec![0])]);
    assert_eq!(unmatched(&matcher), Vec::<u32>::new());
    assert_eq!(idle(&matcher), Vec::<u32>::new());
    assert_eq!(matcher.unfilled_positions(), 0);
}

#[test]
fn capacity_saturation() {
    let applicants = vec![single(0, vec![100]), single(1, vec![100]), single(2, vec![100])];
    let programs = vec![program(100, 2, vec![0, 1, 2])];
    let mut matcher = Matcher::new();
    assert!(matcher.run_match(&applicants, &programs).is_ok());
    assert_eq!(rosters(&matcher), vec![(100, vec![0, 1])]);
    assert_eq!(unmatched(&matcher), vec![2]);
    assert_eq!(matcher.unfilled_positions(), 0);
}

#[test]
fn displacement_cascade() {
    let applicants = vec![single(0, vec![100]), single(1, vec![101, 100])];
    let programs = vec![program(100, 1, vec![1, 0]), program(101, 1, vec![0])];
    let mut matcher = Matcher::new();
    assert!(matcher.run_match(&applicants, &programs).is_ok());
    assert_eq!(rosters(&matcher), vec![(100, vec![1])]);
    assert_eq!(unmatched(&matcher), vec![0]);
    assert_eq!(idle(&matcher), vec![101]);
    assert_eq!(matcher.unfilled_positions(), 1);
}

#[test]
fn couple_same_program_both_fit() {
    let applicants = vec![pair(0, vec![100], 1, vec![100])];
    let programs = vec![program(100, 2, vec![0, 1])];
    let mut matcher = Matcher::new();
    assert!(matcher.run_match(&applicants, &programs).is_ok());
    assert_eq!(rosters(&matcher), vec![(100, vec![0, 1])]);
    assert_eq!(unmatched(&matcher), Vec::<u32>::new());
    assert_eq!(matcher.unfilled_positions(), 0);
}

#[test]
fn couple_same_program_displacement() {
    let applicants = vec![single(2, vec![100]), pair(0, vec![100], 1, vec![100])];
    let programs = vec![program(100, 2, vec![0, 1, 2])];
    let mut matcher = Matcher::new();
    assert!(matcher.run_match(&applicants, &programs).is_ok());
    assert_eq!(rosters(&matcher), vec![(100, vec![0, 1])]);
    assert_eq!(unmatched(&matcher), vec![2]);
}

#[test]
fn couple_distinct_programs_displaces_couple() {
    let applicants = vec![pair(2, vec![100], 3, vec![101]), pair(0, vec![100], 1, vec![101])];
    let programs = vec![program(100, 1, vec![0, 2]), program(101, 1, vec![1, 3])];
    let mut matcher = Matcher::new();
    assert!(matcher.run_match(&applicants, &programs).is_ok());
    assert_eq!(rosters(&matcher), vec![(100, vec![0]), (101, vec![1])]);
    assert_eq!(unmatched(&matcher), vec![2, 3]);
    assert_eq!(idle(&matcher), Vec::<u32>::new());
    assert_eq!(matcher.unfilled_positions(), 0);
}

#[test]
fn unknown_program_is_reported() {
    let applicants = vec![single(0, vec![7])];
    let programs = vec![program(100, 1, vec![0])];
    let mut matcher = Matcher::new();
    match matcher.run_match(&applicants, &programs) {
        Err(MatchError::ProgramNotFound(note)) => assert_eq!(note, "single: program 7"),
        _ => panic!("the lookup of program 7 must fail"),
    }
    assert!(matcher.matches.is_empty());
    assert!(matcher.unmatched_a.is_empty());
    assert!(matcher.unmatched_p.is_empty());
}

#[test]
fn unknown_program_of_a_couple_is_reported() {
    let programs = vec![program(100, 2, vec![0, 1])];
    let first = vec![pair(0, vec![8], 1, vec![100])];
    let mut matcher = Matcher::new();
    match matcher.run_match(&first, &programs) {
        Err(e) => assert_eq!(e.to_string(), "Program not found: couples: first program 8"),
        Ok(()) => panic!("the lookup of program 8 must fail"),
    }
    let second = vec![pair(0, vec![100], 1, vec![4294967295])];
    match matcher.run_match(&second, &programs) {
        Err(MatchError::ProgramNotFound(note)) => assert_eq!(note, "couples: second program 4294967295"),
        _ => panic!("the lookup of the second program must fail"),
    }
}

#[test]
fn a_program_behind_the_seat_taken_is_never_looked_up() {
    let applicants = vec![single(0, vec![100, 7])];
    let programs = vec![program(100, 1, vec![0])];
    let mut matcher = Matcher::new();
    assert!(matcher.run_match(&applicants, &programs).is_ok());
    assert_eq!(rosters(&matcher), vec![(100, vec![0])]);
}

#[test]
fn a_second_run_forgets_the_first() {
    let applicants = vec![single(0, vec![100]), single(1, vec![100])];
    let programs = vec![program(100, 1, vec![1, 0]), program(101, 3, vec![])];
    let mut matcher = Matcher::new();
    assert!(matcher.run_match(&applicants, &programs).is_ok());
    assert!(matcher.run_match(&applicants, &programs).is_ok());
    assert_eq!(rosters(&matcher), vec![(100, vec![1])]);
    assert_eq!(unmatched(&matcher), vec![0]);
    assert_eq!(idle(&matcher), vec![101]);
    assert_eq!(matcher.unfilled_positions(), 3);
}

#[test]
fn unfilled_positions_adds_spare_and_idle_seats() {
    let applicants = vec![single(0, vec![100]), single(1, vec![101])];
    let programs = vec![program(100, 4, vec![0]), program(101, 1, vec![1]), program(102, 7, vec![0, 1])];
    let mut matcher = Matcher::new();
    assert!(matcher.run_match(&applicants, &programs).is_ok());
    assert_eq!(rosters(&matcher), vec![(100, vec![0]), (101, vec![1])]);
    assert_eq!(idle(&matcher), vec![102]);
    assert_eq!(matcher.unfilled_positions(), 3 + 0 + 7);
}

#[test]
fn a_program_without_seats_takes_nobody() {
    let applicants = vec![single(0, vec![100, 101])];
    let programs = vec![program(100, 0, vec![0]), program(101, 1, vec![0])];
    let mut matcher = Matcher::new();
    assert!(matcher.run_match(&applicants, &programs).is_ok());
    assert_eq!(rosters(&matcher), vec![(101, vec![0])]);
    assert_eq!(idle(&matcher), vec![100]);
}

#[test]
fn a_couple_needs_two_seats_of_one_program() {
    let applicants = vec![pair(0, vec![100, 101], 1, vec![100, 101])];
    let programs = vec![program(100, 1, vec![0, 1]), program(101, 2, vec![1, 0])];
    let mut matcher = Matcher::new();
    assert!(matcher.run_match(&applicants, &programs).is_ok());
    assert_eq!(rosters(&matcher), vec![(101, vec![0, 1])]);
    assert_eq!(unmatched(&matcher), Vec::<u32>::new());
}

#[test]
fn a_couple_displaces_the_two_weakest_of_a_full_program() {
    let applicants = vec![
        single(2, vec![100]),
        single(3, vec![100]),
        single(4, vec![100]),
        pair(0, vec![100], 1, vec![100]),
    ];
    let programs = vec![program(100, 3, vec![2, 0, 1, 3, 4])];
    let mut matcher = Matcher::new();
    assert!(matcher.run_match(&applicants, &programs).is_ok());
    assert_eq!(rosters(&matcher), vec![(100, vec![2, 0, 1])]);
    assert_eq!(unmatched(&matcher), vec![4, 3]);
}

#[test]
fn a_displaced_couple_is_placed_again_as_one() {
    let applicants = vec![pair(2, vec![100, 102], 3, vec![101, 103]), pair(0, vec![100], 1, vec![101])];
    let programs = vec![
        program(100, 1, vec![0, 2]),
        program(101, 1, vec![1, 3]),
        program(102, 1, vec![2]),
        program(103, 1, vec![3]),
    ];
    let mut matcher = Matcher::new();
    assert!(matcher.run_match(&applicants, &programs).is_ok());
    assert_eq!(rosters(&matcher), vec![(100, vec![0]), (101, vec![1]), (102, vec![2]), (103, vec![3])]);
    assert_eq!(unmatched(&matcher), Vec::<u32>::new());
}

#[test]
fn the_partner_of_a_displaced_applicant_gives_up_its_seat() {
    let applicants = vec![pair(0, vec![100], 1, vec![101]), single(2, vec![100])];
    let programs = vec![program(100, 1, vec![2, 0]), program(101, 1, vec![1])];
    let mut matcher = Matcher::new();
    assert!(matcher.run_match(&applicants, &programs).is_ok());
    assert_eq!(rosters(&matcher), vec![(100, vec![2])]);
    assert_eq!(unmatched(&matcher), vec![0, 1]);
    assert_eq!(idle(&matcher), vec![101]);
}

#[test]
fn a_cascade_that_would_never_settle_is_cut_off() {
    let applicants = vec![
        pair(4, vec![1], 5, vec![1]),
        single(6, vec![1]),
        pair(2, vec![1, 0, 0], 3, vec![0, 1, 0]),
        pair(0, vec![1, 0, 1, 1], 1, vec![1, 1, 0, 1]),
        pair(7, vec![0], 8, vec![1]),
    ];
    let programs = vec![program(0, 3, vec![7, 4, 3, 0, 6, 1, 2]), program(1, 3, vec![3, 6, 5, 0, 8, 1, 2])];
    let mut matcher = Matcher::new();
    assert!(matcher.run_match(&applicants, &programs).is_ok());
    assert_eq!(rosters(&matcher), vec![(0, vec![1]), (1, vec![6, 0])]);
    assert_eq!(unmatched(&matcher), vec![4, 5, 2, 3, 8, 7]);
    assert_eq!(matcher.unfilled_positions(), 3);
}

#[test]
fn every_applicant_ends_in_exactly_one_place_within_capacity() {
    let applicants = vec![
        single(0, vec![100, 101]),
        pair(1, vec![100, 101], 2, vec![101, 100]),
        single(3, vec![101, 100]),
        pair(4, vec![101], 5, vec![101]),
        single(6, vec![100]),
    ];
    let programs = vec![program(100, 2, vec![6, 1, 0, 3, 2]), program(101, 3, vec![4, 5, 3, 2, 0, 1])];
    let mut matcher = Matcher::new();
    assert!(matcher.run_match(&applicants, &programs).is_ok());
    let mut seen: Vec<u32> = unmatched(&matcher);
    for m in matcher.matches.iter() {
        assert!(m.1.len() <= m.0.capacity as usize);
        for a in m.1.iter() {
            assert!(m.0.ranking.iter().any(|e| e.0 == a.id));
            assert!(a.ranking.contains(&m.0.id));
            seen.push(a.id);
        }
    }
    seen.sort();
    assert_eq!(seen, vec![0, 1, 2, 3, 4, 5, 6]);
    assert_eq!(rosters(&matcher), vec![(100, vec![0, 6]), (101, vec![3, 4, 5])]);
    assert_eq!(unmatched(&matcher), vec![2, 1]);
}

#[test]
fn without_couples_nobody_is_turned_away_by_a_program_that_likes_it_better() {
    let applicants = vec![
        single(0, vec![100, 101, 102]),
        single(1, vec![100, 102]),
        single(2, vec![101, 100]),
        single(3, vec![100, 101]),
        single(4, vec![102, 100, 101]),
        single(5, vec![100]),
    ];
    let programs = vec![
        program(100, 2, vec![5, 3, 1, 0, 2, 4]),
        program(101, 1, vec![0, 3, 2, 4]),
        program(102, 1, vec![1, 4, 0]),
    ];
    let mut matcher = Matcher::new();
    assert!(matcher.run_match(&applicants, &programs).is_ok());
    assert_eq!(rosters(&matcher), vec![(100, vec![3, 5]), (101, vec![0]), (102, vec![1])]);
    assert_eq!(unmatched(&matcher), vec![2, 4]);
    for unit in applicants.iter() {
        let b = &unit.0;
        for wanted in b.ranking.iter() {
            let held = matcher.matches.iter().find(|m| m.0.id == *wanted).unwrap();
            if held.1.iter().any(|m| m.id == b.id) {
                break;
            }
            let place = |id: u32| held.0.ranking.iter().position(|e| e.0 == id);
            if let Some(mine) = place(b.id) {
                assert_eq!(held.1.len(), held.0.capacity as usize);
                assert!(held.1.iter().all(|m| place(m.id).unwrap() < mine));
            }
        }
    }
}

#[test]
fn couples_end_at_one_entry_of_their_joint_list_or_unmatched() {
    let applicants = vec![
        pair(0, vec![100, 101], 1, vec![101, 100]),
        single(2, vec![100, 101]),
        pair(3, vec![101, 100], 4, vec![101, 101]),
        single(5, vec![101]),
        pair(6, vec![100], 7, vec![101]),
    ];
    let programs = vec![program(100, 2, vec![2, 6, 3, 0, 1, 4]), program(101, 2, vec![5, 4, 7, 3, 1, 0, 2])];
    let mut matcher = Matcher::new();
    assert!(matcher.run_match(&applicants, &programs).is_ok());
    let seat_of = |id: u32| matcher.matches.iter().find(|m| m.1.iter().any(|a| a.id == id)).map(|m| m.0.id);
    for unit in applicants.iter() {
        if let Some(b) = &unit.1 {
            let a = &unit.0;
            match (seat_of(a.id), seat_of(b.id)) {
                (None, None) => {
                    assert!(matcher.unmatched_a.iter().any(|x| x.id == a.id));
                    assert!(matcher.unmatched_a.iter().any(|x| x.id == b.id));
                }
                (Some(p), Some(q)) => {
                    assert!((0..a.ranking.len()).any(|k| a.ranking[k] == p && b.ranking[k] == q));
                }
                _ => panic!("a couple was split"),
            }
        }
    }
    assert_eq!(rosters(&matcher), vec![(100, vec![2, 3]), (101, vec![5, 4])]);
    assert_eq!(unmatched(&matcher), vec![1, 0, 6, 7]);
}

#[test]
fn the_budget_of_a_cascade_is_one_more_than_the_table_weighs() {
    assert_eq!(cascade_budget(&Vec::new()), 1);
    assert_eq!(cascade_budget(&vec![program(100, 3, vec![1, 2, 3, 4])]), 13);
    assert_eq!(
        cascade_budget(&vec![program(0, 3, vec![7, 4, 3, 0, 6, 1, 2]), program(1, 3, vec![3, 6, 5, 0, 8, 1, 2])]),
        43
    );
    assert_eq!(cascade_budget(&vec![program(100, 0, vec![1, 2]), program(101, 255, vec![])]), 1);
}

#[test]
fn a_long_chain_of_displacements_is_worked_off_to_the_end() {
    let n: u32 = 40;
    let mut applicants = Vec::new();
    for i in 0..n {
        applicants.push(single(i, (0..n).map(|p| 1000 + p).collect()));
    }
    let mut programs = Vec::new();
    for p in 0..n {
        programs.push(program(1000 + p, 1, (0..n).rev().collect()));
    }
    let mut matcher = Matcher::new();
    assert!(matcher.run_match(&applicants, &programs).is_ok());
    let got = rosters(&matcher);
    assert_eq!(got.len(), n as usize);
    for p in 0..n {
        assert_eq!(got[p as usize], (1000 + p, vec![n - 1 - p]));
    }
    assert_eq!(unmatched(&matcher), Vec::<u32>::new());
}
