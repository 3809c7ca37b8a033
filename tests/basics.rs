use toylang::basics::{calculate_length, gives_ownership, takes_and_gives_back, Student};

#[test]
fn average_score_test() {
    let alice = Student::new(String::from("Alice"), vec![80, 90, 75, 85]);
    assert_eq!(alice.name, "Alice");
    assert_eq!(alice.total_score(), 330);
    let avg_score: f64 = alice.total_score() as f64 / alice.scores.len() as f64;
    assert_eq!(avg_score, 82.5);
    println!("average_score : {:?}", avg_score);
}

#[test]
fn total_score_of_largest_scores() {
    let s = Student::new(String::from("Max"), vec![u32::MAX, u32::MAX]);
    assert_eq!(s.total_score(), 2 * u32::MAX as u64);
    let empty = Student::new(String::new(), vec![]);
    assert_eq!(empty.total_score(), 0);
}

#[test]
fn string_hand_offs() {
    assert_eq!(calculate_length(&String::from("hello")), 5);
    assert_eq!(calculate_length(&String::from("é")), 2);
    assert_eq!(gives_ownership(), "yours");
    assert_eq!(takes_and_gives_back(String::from("hello")), "hello");
}
