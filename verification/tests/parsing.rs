use gridsearch::calibration::process;
use gridsearch::cube_game::{Game, Round};
use gridsearch::race::{parse_race_line, RaceLine};

#[test]
fn calibration_of_plain_digits() {
    assert_eq!(process("1abc2"), 12);
    assert_eq!(process("pqr3stu8vwx"), 38);
    assert_eq!(process("a1b2c3d4e5f"), 15);
    assert_eq!(process("treb7uchet"), 77);
}

#[test]
fn calibration_of_spelled_digits() {
    assert_eq!(process("two1nine"), 29);
    assert_eq!(process("eightwothree"), 83);
    assert_eq!(process("abcone2threexyz"), 13);
    assert_eq!(process("xtwone3four"), 24);
    assert_eq!(process("4nineeightseven2"), 42);
    assert_eq!(process("zoneight234"), 14);
    assert_eq!(process("7pqrstsixteen"), 76);
}

#[test]
fn calibration_without_digits_is_zero() {
    assert_eq!(process(""), 0);
    assert_eq!(process("abcdef"), 0);
}

#[test]
fn game_line_parses() {
    let game = Game::parse("Game 11: 3 blue, 4 red; 1 red, 2 green, 6 blue; 2 green").unwrap();
    assert_eq!(game.id, 11);
    assert_eq!(game.rounds.len(), 3);
    assert_eq!(game.rounds[0], Round::new(4, 3, 0));
    assert_eq!(game.rounds[1], Round::new(1, 6, 2));
    assert_eq!(game.rounds[2], Round::new(0, 0, 2));
}

#[test]
fn game_line_rejects_bad_input() {
    assert!(Game::parse("Game 1 3 blue").is_none());
    assert!(Game::parse("Game x: 3 blue").is_none());
    assert!(Game::parse("Game 1: 3 yellow").is_none());
    assert!(Game::parse("Game 1: blue 3").is_none());
}

#[test]
fn game_fits_and_cover() {
    let limit = Round::new(12, 14, 13);
    let game = Game::parse("Game 1: 3 blue, 4 red; 1 red, 2 green, 6 blue; 2 green").unwrap();
    assert!(game.fits_into(&limit));
    assert_eq!(game.minimal_cover(), Round::new(4, 6, 2));
    let big = Game::parse("Game 2: 20 red, 1 blue").unwrap();
    assert!(!big.fits_into(&limit));
}

#[test]
fn round_updates_keep_maxima() {
    let mut acc = Round::new(1, 5, 2);
    acc.update_if_lt(&Round::new(3, 4, 2));
    assert_eq!(acc, Round::new(3, 5, 2));
    assert!(Round::new(3, 5, 2).does_fit_into(&Round::new(3, 5, 2)));
    assert!(!Round::new(4, 5, 2).does_fit_into(&Round::new(3, 5, 2)));
}

#[test]
fn race_lines_parse() {
    match parse_race_line("Time:      7  15   30").unwrap() {
        RaceLine::Time(v) => assert_eq!(v, vec![7, 15, 30]),
        RaceLine::Distance(_) => panic!("wrong label"),
    }
    match parse_race_line("Distance:  9  40  200").unwrap() {
        RaceLine::Distance(v) => assert_eq!(v, vec![9, 40, 200]),
        RaceLine::Time(_) => panic!("wrong label"),
    }
    assert!(parse_race_line("Speed: 1 2").is_none());
    assert!(parse_race_line("Time 1 2").is_none());
    assert!(parse_race_line("Time: 1 x").is_none());
}
