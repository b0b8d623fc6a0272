use arcade_guess::game::{
    finish_round, menu_choice, win_tier, GameRound, GuessOutcome, MenuChoice, WinTier,
};
use arcade_guess::store::RecordStore;

#[test]
fn round_with_target_fifty() {
    let mut round = GameRound::with_target(50);
    assert_eq!(round.guess("30"), GuessOutcome::TooSmall);
    assert_eq!(round.guess_count(), 1);
    assert_eq!(round.guess("70"), GuessOutcome::TooBig);
    assert_eq!(round.guess_count(), 2);
    assert_eq!(round.guess("50"), GuessOutcome::Correct);
    assert_eq!(round.guess_count(), 3);
    let mut store = RecordStore::new();
    let result = finish_round(&mut store, "AAA", round.guess_count());
    assert_eq!(result.guess_count, 3);
    assert_eq!(result.best, Some(3));
    assert!(!result.new_best);
    assert_eq!(store.scores.len(), 1);
    assert!(store.scores[0].starts_with("AAA,3,"));
}

#[test]
fn non_numeric_guess_is_not_counted() {
    let mut round = GameRound::with_target(10);
    assert_eq!(round.guess("abc"), GuessOutcome::NotANumber);
    assert_eq!(round.guess(""), GuessOutcome::NotANumber);
    assert_eq!(round.guess("-5"), GuessOutcome::NotANumber);
    assert_eq!(round.guess_count(), 0);
    assert_eq!(round.guess(" 10\n"), GuessOutcome::Correct);
    assert_eq!(round.guess_count(), 1);
}

#[test]
fn new_round_draws_in_range() {
    for _ in 0..200 {
        let round = GameRound::new();
        assert!((1..=100).contains(&round.target()));
        assert_eq!(round.guess_count(), 0);
    }
}

#[test]
fn win_tiers() {
    assert_eq!(win_tier(1), WinTier::Quick);
    assert_eq!(win_tier(5), WinTier::Quick);
    assert_eq!(win_tier(6), WinTier::Fair);
    assert_eq!(win_tier(10), WinTier::Fair);
    assert_eq!(win_tier(11), WinTier::Slow);
}

#[test]
fn earlier_lower_score_is_kept_as_best() {
    let mut store = RecordStore::new();
    store.append_score("AAA", 2, "2024-01-01T00:00:00Z");
    let result = finish_round(&mut store, "AAA", 6);
    assert_eq!(result.best, Some(2));
    assert!(!result.new_best);
}

#[test]
fn menu_choices() {
    assert_eq!(menu_choice("1\n"), Some(MenuChoice::Play));
    assert_eq!(menu_choice(" 2"), Some(MenuChoice::Leaderboard));
    assert_eq!(menu_choice("3"), Some(MenuChoice::Logout));
    assert_eq!(menu_choice("4"), None);
    assert_eq!(menu_choice("12"), None);
}

#[test]
fn best_after_round_is_min_of_old_best_and_count() {
    let mut store = RecordStore::new();
    let result = finish_round(&mut store, "AAA", 9);
    assert_eq!(result.best, Some(9));
    assert!(!result.new_best);
    let result = finish_round(&mut store, "AAA", 4);
    assert_eq!(result.best, Some(4));
    assert!(!result.new_best);
    let result = finish_round(&mut store, "AAA", 7);
    assert_eq!(result.best, Some(4));
    assert!(!result.new_best);
}
