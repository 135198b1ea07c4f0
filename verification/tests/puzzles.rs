use gridsearch::lens_hash;
use gridsearch::race;
use gridsearch::scratchcards::Ticket;
use gridsearch::sequences::{get_steps, one, two};

#[test]
fn test_ticket() {
    let ticket = Ticket::parse("Card 1: 41 48 83 86 17 | 83 86  6 31 17  9 48 53").unwrap();
    assert_eq!(ticket.wining_numbers.len(), 5);
    assert_eq!(ticket.numbers.len(), 8);
    assert_eq!(ticket.get_ticket_worth(), 8);
    assert_eq!(ticket.get_matching_count(), 4);
}

#[test]
fn ticket_without_markers_fails() {
    assert!(Ticket::parse("Card 1: 41 48 | 83 86").is_some());
    assert!(Ticket::parse("Card 1 41 48 83").is_none());
    assert!(Ticket::parse("Card 1: 41 48 83").is_none());
    assert!(Ticket::parse("Card 1: 41 4x | 83").is_none());
}

#[test]
fn scratchcard_copies_cascade() {
    // the matching counts of the six reference cards
    let matches: Vec<usize> = vec![4, 2, 2, 1, 0, 0];
    assert_eq!(gridsearch::scratchcards::total_scratchcards(&matches), 30);
    assert_eq!(gridsearch::scratchcards::total_scratchcards(&Vec::new()), 0);
    assert_eq!(gridsearch::scratchcards::total_scratchcards(&vec![0, 0]), 2);
}

#[test]
fn get_time() {
    assert_eq!(race::get_time(7, 9), 4);
    assert_eq!(race::get_time(15, 40), 8);
    assert_eq!(race::get_time(30, 200), 9);
}

#[test]
fn test_one() {
    assert_eq!(one(get_steps(vec![1, 2, 3])), 4);
    assert_eq!(one(get_steps(vec![0, 3, 6, 9, 12, 15])), 18);
    assert_eq!(one(get_steps(vec![1, 3, 6, 10, 15, 21])), 28);
    assert_eq!(one(get_steps(vec![10, 13, 16, 21, 30, 45])), 68);
    assert_eq!(
        one(get_steps(vec![-1, 0, 1, 2, 3, 4, 5, 6, 7, 8, 9, 10])),
        11
    );
}

#[test]
fn test_two() {
    assert_eq!(two(get_steps(vec![1, 2, 3])), 0);
    assert_eq!(two(get_steps(vec![0, 3, 6, 9, 12, 15])), -3);
    assert_eq!(two(get_steps(vec![1, 3, 6, 10, 15, 21])), 0);
    assert_eq!(two(get_steps(vec![10, 13, 16, 21, 30, 45])), 5);
    assert_eq!(two(get_steps(vec![-1, 0, 1, 2, 3, 4, 5, 6, 7, 8])), -2);
}

#[test]
fn test_hash() {
    assert_eq!(lens_hash::hash("HASH"), 52);
    assert_eq!(lens_hash::hash("rn=1"), 30);
    assert_eq!(lens_hash::hash("cm-"), 253);
    assert_eq!(lens_hash::hash("qp=3"), 97);
    assert_eq!(lens_hash::hash("cm=2"), 47);
    assert_eq!(lens_hash::hash("qp-"), 14);
    assert_eq!(lens_hash::hash("pc=4"), 180);
    assert_eq!(lens_hash::hash("ot=9"), 9);
}

#[test]
fn lenses() {
    let vals = vec![
        "rn=1", "cm-", "qp=3", "cm=2", "qp-", "pc=4", "ot=9", "ab=5", "pc-", "pc=6", "ot=7",
    ];
    let instructions: Vec<String> = vals.into_iter().map(|s| s.to_string()).collect();
    assert_eq!(lens_hash::two(&instructions), 145);
}

#[test]
fn lens_removal_of_bad_power_acts_like_removal() {
    let instructions: Vec<String> = vec!["ab=5".to_string(), "ab=x".to_string()];
    assert_eq!(lens_hash::two(&instructions), 0);
}

#[test]
fn hash_sum_of_instructions() {
    let vals: Vec<String> = vec!["rn=1".to_string(), "cm-".to_string(), "qp=3".to_string()];
    assert_eq!(lens_hash::one(&vals), 30 + 253 + 97);
}
