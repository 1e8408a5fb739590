use cardmatch::card::{Card, CardError};
use cardmatch::game::{parse_line, solve, GameError};
use cardmatch::zfinder::{FindError, ZFinder, JOKER};

const COMPUTER: &str =
    "CLUBS#ACE CLUBS#ACE CLUBS#ACE HEARTS#JACK SPADES#9 SPADES#9 HEARTS#JACK SPADES#9";

fn play(computer: &str, user: &str) -> Result<Vec<usize>, GameError> {
    let computer = parse_line(computer).unwrap();
    let user = parse_line(user).unwrap();
    solve(&computer, &user)
}

#[test]
fn test_1() {
    let result = play(COMPUTER, "HEARTS#JACK SPADES#9");
    assert!(result.is_ok());
    assert_eq!(result.unwrap(), vec![3, 6]);
}

#[test]
fn test_2() {
    let result = play(COMPUTER, "HEARTS#ACE SPADES#ACE");
    assert!(result.is_err());
    assert_eq!(result, Err(GameError::NoMatch));
}

#[test]
fn test_joker() {
    let result = play(COMPUTER, "JOKER HEARTS#JACK SPADES#9");
    assert!(result.is_ok());
    assert_eq!(result.unwrap(), vec![2, 5]);
}

#[test]
fn overlapping_occurrences_are_reported() {
    assert_eq!(play("CLUBS#2 CLUBS#2 CLUBS#2", "CLUBS#2 CLUBS#2"), Ok(vec![0, 1]));
}

#[test]
fn lone_joker_matches_everywhere_but_past_the_end() {
    assert_eq!(play("CLUBS#2 HEARTS#5 SPADES#KING", "JOKER"), Ok(vec![0, 1, 2]));
}

#[test]
fn longer_hand_is_refused_by_solve() {
    assert_eq!(play("CLUBS#ACE", "CLUBS#ACE CLUBS#ACE"), Err(GameError::PatternLongerThanText));
    assert_eq!(play("CLUBS#ACE", "CLUBS#ACE"), Err(GameError::PatternLongerThanText));
}

#[test]
fn joker_in_computer_hand_is_refused() {
    assert_eq!(play("CLUBS#ACE JOKER HEARTS#2", "CLUBS#ACE"), Err(GameError::TextContainsWildcard));
}

#[test]
fn joker_after_first_position() {
    // The joker stands second, where a value copied from the Z-box is only a lower bound.
    assert_eq!(play("CLUBS#ACE CLUBS#ACE CLUBS#ACE", "CLUBS#ACE JOKER"), Ok(vec![0, 1]));
    assert_eq!(
        play("HEARTS#2 HEARTS#2 HEARTS#2 HEARTS#2 HEARTS#3", "HEARTS#2 JOKER HEARTS#2"),
        Ok(vec![0, 1])
    );
}

#[test]
fn replacing_a_card_by_a_joker_only_adds_offsets() {
    let plain = play(COMPUTER, "HEARTS#JACK SPADES#9").unwrap();
    let wider = play(COMPUTER, "HEARTS#JACK JOKER").unwrap();
    for k in &plain {
        assert!(wider.contains(k));
    }
    assert_eq!(wider, vec![3, 6]);
    let widest = play(COMPUTER, "JOKER JOKER").unwrap();
    assert_eq!(widest, vec![0, 1, 2, 3, 4, 5, 6]);
}

#[test]
fn parse_line_splits_on_whitespace() {
    let cards = parse_line("  CLUBS#ACE\tJOKER   SPADES#9 \n").unwrap();
    assert_eq!(cards.len(), 3);
    assert_eq!(cards[1], Card::Joker);
    assert_eq!(parse_line("").unwrap(), vec![]);
    assert_eq!(parse_line("CLUBS#ACE CLUBS#ACX"), Err(CardError::MalformedCard));
}

#[test]
fn finder_text_offsets_only() {
    let mut finder = ZFinder::new(&[1, 2, 1, 2, 1], &[1, 2]);
    assert_eq!(finder.find(), Ok(0));
    assert_eq!(finder.find(), Ok(2));
    assert_eq!(finder.find(), Err(FindError::NoMore));
    assert_eq!(finder.find(), Err(FindError::NoMore));
}

#[test]
fn finder_find_all_and_no_match() {
    let mut finder = ZFinder::new(&[5, 5, 5, 5], &[5, JOKER]);
    assert_eq!(finder.find_all(), Ok(vec![0, 1, 2]));
    let mut finder = ZFinder::new(&[5, 6, 7], &[7, 6]);
    assert_eq!(finder.find_all(), Err(FindError::NoMatch));
}

#[test]
fn finder_pattern_longer_than_text() {
    let mut finder = ZFinder::new(&[1], &[1, 1]);
    assert_eq!(finder.find_all(), Err(FindError::NoMatch));
}

#[test]
fn finder_empty_pattern_has_no_match() {
    let mut finder = ZFinder::new(&[1, 2, 3], &[]);
    assert_eq!(finder.find_all(), Err(FindError::NoMatch));
    let mut finder = ZFinder::new(&[], &[]);
    assert_eq!(finder.find(), Err(FindError::NoMore));
}

#[test]
fn finder_joker_in_text_matches_only_itself() {
    let mut finder = ZFinder::new(&[JOKER, 3], &[3]);
    assert_eq!(finder.find_all(), Ok(vec![1]));
}

#[test]
fn finder_resumes_after_find_all() {
    let mut finder = ZFinder::new(&[4, 4, 4], &[4]);
    assert_eq!(finder.find(), Ok(0));
    assert_eq!(finder.find_all(), Ok(vec![1, 2]));
    assert_eq!(finder.find_all(), Err(FindError::NoMatch));
}

#[test]
fn parse_line_accepts_all_unicode_whitespace() {
    let cards = parse_line("CLUBS#ACE\u{c}SPADES#9\u{b}JOKER\u{a0}HEARTS#2\u{3000}DIAMONDS#KING").unwrap();
    assert_eq!(cards.len(), 5);
    assert_eq!(cards[2], Card::Joker);
    let cards = parse_line("CLUBS#ACE  SPADES#9").unwrap();
    assert_eq!(cards.len(), 2);
    assert_eq!(cards, parse_line("CLUBS#ACE SPADES#9").unwrap());
}
