use maze::player::{play_round, Player};
use maze::shiritori::{judgment, Verdict};
use maze::thinking::{
    hand_after_round, hand_of_index, outcome, GameResult, Hand, Thinking, Way1, Way2,
};

#[test]
fn new_player_has_played_nothing() {
    let p = Player::new("Taro".to_string(), Way2::new());
    assert_eq!(p.name(), "Taro");
    assert_eq!((p.games(), p.wins(), p.losses(), p.draws()), (0, 0, 0, 0));
    assert!(p.can_count());
}

#[test]
fn rounds_are_tallied() {
    let mut p = Player::new("Hana".to_string(), Way2::new());
    p.win();
    p.win();
    p.lose();
    p.even();
    p.even();
    p.even();
    assert_eq!((p.games(), p.wins(), p.losses(), p.draws()), (6, 2, 1, 3));
    assert_eq!(p.name(), "Hana");
}

#[test]
fn player_hands_come_from_the_strategy() {
    let mut p = Player::new("Hana".to_string(), Way2::new());
    assert_eq!(p.next_hand(), Hand::Rock);
    p.lose();
    assert_eq!(p.next_hand(), Hand::Paper);
    p.win();
    assert_eq!(p.next_hand(), Hand::Scissors);
    p.even();
    assert_eq!(p.next_hand(), Hand::Rock);
    assert_eq!(p.games(), 3);
}

#[test]
fn way2_cycles_whatever_the_result() {
    let mut w = Way2::new();
    assert_eq!(w.next_hand(), Hand::Rock);
    assert_eq!(w.next_hand(), Hand::Rock);
    w.study(GameResult::Win);
    assert_eq!(w.next_hand(), Hand::Paper);
    w.study(GameResult::Lose);
    assert_eq!(w.next_hand(), Hand::Scissors);
    w.study(GameResult::Even);
    assert_eq!(w.next_hand(), Hand::Rock);
}

#[test]
fn way1_keeps_its_hand_after_a_win() {
    let mut w = Way1::new();
    assert_eq!(w.next_hand(), Hand::Rock);
    for _ in 0..10 {
        w.study(GameResult::Win);
        assert_eq!(w.next_hand(), Hand::Rock);
    }
}

#[test]
fn way1_picks_rock_or_paper_after_a_loss_or_a_draw() {
    let mut w = Way1::new();
    let mut rock = 0;
    let mut paper = 0;
    for i in 0..400 {
        w.study(if i % 2 == 0 { GameResult::Lose } else { GameResult::Even });
        match w.next_hand() {
            Hand::Rock => rock += 1,
            Hand::Paper => paper += 1,
            Hand::Scissors => panic!("scissors is never drawn"),
        }
    }
    assert!(rock > 0);
    assert!(paper > 0);
}

#[test]
fn hands_by_position() {
    assert_eq!(hand_of_index(0), Hand::Rock);
    assert_eq!(hand_of_index(1), Hand::Paper);
    assert_eq!(hand_of_index(2), Hand::Scissors);
    assert_eq!(hand_after_round(Hand::Scissors, GameResult::Win, 0), Hand::Scissors);
    assert_eq!(hand_after_round(Hand::Scissors, GameResult::Lose, 0), Hand::Rock);
    assert_eq!(hand_after_round(Hand::Scissors, GameResult::Even, 1), Hand::Paper);
}

#[test]
fn rounds_are_judged() {
    assert_eq!(outcome(Hand::Rock, Hand::Scissors), GameResult::Win);
    assert_eq!(outcome(Hand::Rock, Hand::Paper), GameResult::Lose);
    assert_eq!(outcome(Hand::Rock, Hand::Rock), GameResult::Even);
    assert_eq!(outcome(Hand::Scissors, Hand::Paper), GameResult::Win);
    assert_eq!(outcome(Hand::Scissors, Hand::Rock), GameResult::Lose);
    assert_eq!(outcome(Hand::Scissors, Hand::Scissors), GameResult::Even);
    assert_eq!(outcome(Hand::Paper, Hand::Rock), GameResult::Win);
    assert_eq!(outcome(Hand::Paper, Hand::Scissors), GameResult::Lose);
    assert_eq!(outcome(Hand::Paper, Hand::Paper), GameResult::Even);
}

#[test]
fn a_round_updates_both_tallies() {
    let mut a = Player::new("a".to_string(), Way2::new());
    let mut b = Player::new("b".to_string(), Way2::new());
    assert_eq!(play_round(&mut a, &mut b), GameResult::Even);
    assert_eq!((a.games(), a.wins(), a.losses(), a.draws()), (1, 0, 0, 1));
    assert_eq!((b.games(), b.wins(), b.losses(), b.draws()), (1, 0, 0, 1));
    // one more result for a puts it a hand ahead of b
    a.even();
    assert_eq!(a.next_hand(), Hand::Scissors);
    assert_eq!(b.next_hand(), Hand::Paper);
    assert_eq!(play_round(&mut a, &mut b), GameResult::Win);
    assert_eq!((a.games(), a.wins(), a.losses(), a.draws()), (3, 1, 0, 2));
    assert_eq!((b.games(), b.wins(), b.losses(), b.draws()), (2, 0, 1, 1));
    let mut c = Player::new("c".to_string(), Way2::new());
    c.even();
    c.even();
    c.even();
    c.even();
    // a shows rock, c shows paper
    assert_eq!(play_round(&mut a, &mut c), GameResult::Lose);
    assert_eq!(a.losses(), 1);
    assert_eq!(c.wins(), 1);
}

#[test]
fn a_thousand_rounds_add_up() {
    let mut a = Player::new("Taro".to_string(), Way1::new());
    let mut b = Player::new("Hana".to_string(), Way2::new());
    for _ in 0..1000 {
        assert!(a.can_count() && b.can_count());
        play_round(&mut a, &mut b);
    }
    assert_eq!(a.games(), 1000);
    assert_eq!(b.games(), 1000);
    assert_eq!(a.wins() + a.losses() + a.draws(), 1000);
    assert_eq!(a.wins(), b.losses());
    assert_eq!(a.losses(), b.wins());
    assert_eq!(a.draws(), b.draws());
}

#[test]
fn words_are_judged() {
    let word: Vec<char> = "あひる".chars().collect();
    assert_eq!(judgment(&word, 'あ'), Verdict::Next('る'));
    assert_eq!(judgment(&word, 'い'), Verdict::WrongStart('あ'));
    let closing: Vec<char> = "あんぱん".chars().collect();
    assert_eq!(judgment(&closing, 'あ'), Verdict::GameOver);
    assert_eq!(judgment(&closing, 'ん'), Verdict::WrongStart('あ'));
    let single: Vec<char> = vec!['ん'];
    assert_eq!(judgment(&single, 'ん'), Verdict::GameOver);
    assert_eq!(judgment(&vec!['a'], 'a'), Verdict::Next('a'));
}
