//! One guessing round: a secret number in 1..=100, guesses read from entered
//! lines, and what happens when the number is found.
use vstd::prelude::*;

use crate::ledger::{
    best_of, best_with, get_personal_best, lemma_personal_best_after_save, save_score,
};
use crate::store::{plain_name, plain_stamp, score_line_of, scores_of, RecordStore};
use crate::text::{parse_u32, parsed_u32, trim_text, trimmed};

verus! {

pub const LOWEST_SECRET: u32 = 1;

pub const HIGHEST_SECRET: u32 = 100;

/// Relies on rand's `thread_rng` and `Rng::gen_range` over `low..=high`: a
/// value in that inclusive range (the range must not be empty, else it panics).
#[verifier::external_body]
fn draw_in_range(low: u32, high: u32) -> (r: u32)
    requires
        low <= high,
    ensures
        low <= r <= high,
{
    rand::Rng::gen_range(&mut rand::thread_rng(), low..=high)
}

/// Whether an entered line counts as a guess.
pub open spec fn is_number_line(line: Seq<char>) -> bool {
    parsed_u32(trimmed(line)) is Some
}

/// The guess count after one entered line: one more for a number, unchanged
/// otherwise.
pub open spec fn count_after(count: nat, line: Seq<char>) -> nat {
    if is_number_line(line) {
        count + 1
    } else {
        count
    }
}

/// What one entered line reports against the secret `target`.
pub open spec fn outcome_of(target: u32, line: Seq<char>) -> GuessOutcome {
    match parsed_u32(trimmed(line)) {
        None => GuessOutcome::NotANumber,
        Some(g) => if g < target {
            GuessOutcome::TooSmall
        } else if g > target {
            GuessOutcome::TooBig
        } else {
            GuessOutcome::Correct
        },
    }
}

/// How a guess compares with the secret number.
#[derive(Clone, Copy, Debug, PartialEq, Eq)]
pub enum GuessOutcome {
    NotANumber,
    TooSmall,
    TooBig,
    Correct,
}

/// A round in progress: its secret number and the guesses counted so far.
pub struct GameRound {
    target: u32,
    guess_count: u32,
}

impl GameRound {
    pub closed spec fn spec_target(&self) -> u32 {
        self.target
    }

    pub closed spec fn spec_guess_count(&self) -> u32 {
        self.guess_count
    }

    /// A round with a freshly drawn secret number.
    pub fn new() -> (r: GameRound)
        ensures
            LOWEST_SECRET <= r.spec_target() <= HIGHEST_SECRET,
            r.spec_guess_count() == 0,
    {
        GameRound { target: draw_in_range(LOWEST_SECRET, HIGHEST_SECRET), guess_count: 0 }
    }

    /// A round whose secret number is `target`.
    pub fn with_target(target: u32) -> (r: GameRound)
        requires
            LOWEST_SECRET <= target <= HIGHEST_SECRET,
        ensures
            r.spec_target() == target,
            r.spec_guess_count() == 0,
    {
        GameRound { target, guess_count: 0 }
    }

    pub fn target(&self) -> (r: u32)
        ensures
            r == self.spec_target(),
    {
        self.target
    }

    pub fn guess_count(&self) -> (r: u32)
        ensures
            r == self.spec_guess_count(),
    {
        self.guess_count
    }

    /// Takes one entered line. A line that does not read as a number changes
    /// nothing; a number is counted, then compared with the secret.
    pub fn guess(&mut self, entered: &str) -> (r: GuessOutcome)
        requires
            old(self).spec_guess_count() < u32::MAX,
        ensures
            final(self).spec_target() == old(self).spec_target(),
            final(self).spec_guess_count() == count_after(old(self).spec_guess_count() as nat, entered@),
            r == outcome_of(old(self).spec_target(), entered@),
    {
        match parse_u32(trim_text(entered)) {
            None => GuessOutcome::NotANumber,
            Some(g) => {
                self.guess_count = self.guess_count + 1;
                if g < self.target {
                    GuessOutcome::TooSmall
                } else if g > self.target {
                    GuessOutcome::TooBig
                } else {
                    GuessOutcome::Correct
                }
            },
        }
    }
}

/// The band of the win message by guess count.
#[derive(Clone, Copy, Debug, PartialEq, Eq)]
pub enum WinTier {
    Quick,
    Fair,
    Slow,
}

pub fn win_tier(guess_count: u32) -> (r: WinTier)
    ensures
        r == if 1 <= guess_count <= 5 {
            WinTier::Quick
        } else if 6 <= guess_count <= 10 {
            WinTier::Fair
        } else {
            WinTier::Slow
        },
{
    if 1 <= guess_count && guess_count <= 5 {
        WinTier::Quick
    } else if 6 <= guess_count && guess_count <= 10 {
        WinTier::Fair
    } else {
        WinTier::Slow
    }
}

/// Whether `guess_count` beats the personal best that was read.
pub open spec fn beats(guess_count: u32, best: Option<u32>) -> bool {
    match best {
        Some(b) => guess_count < b,
        None => false,
    }
}

/// The end of a won round: its guess count, the personal best read after the
/// score was recorded, and whether the count beat that best.
pub struct RoundResult {
    pub guess_count: u32,
    pub best: Option<u32>,
    pub new_best: bool,
}

/// Records the won round of `username` and reads the personal best back from
/// the score log, which by then includes this round. For a plain name that
/// best is the smaller of the earlier best and this count, so the round is
/// never reported as a new best.
pub fn finish_round(store: &mut RecordStore, username: &str, guess_count: u32) -> (r: RoundResult)
    ensures
        exists|ts: Seq<char>|
            ts.len() > 0 && plain_stamp(ts) && final(store).score_log() == old(
                store,
            ).score_log().push(#[trigger] score_line_of(username@, guess_count, ts)),
        final(store).user_log() == old(store).user_log(),
        final(store).login_log() == old(store).login_log(),
        r.guess_count == guess_count,
        r.best == best_of(scores_of(final(store).score_log()), username@),
        r.new_best == beats(guess_count, r.best),
        plain_name(username@) ==> r.best == Some(
            best_with(best_of(scores_of(old(store).score_log()), username@), guess_count),
        ),
        plain_name(username@) ==> !r.new_best,
{
    let ts = save_score(store, username, guess_count);
    assert(store.score_log() == old(store).score_log().push(
        score_line_of(username@, guess_count, ts@),
    ));
    proof {
        if plain_name(username@) {
            lemma_personal_best_after_save(old(store).score_log(), username@, guess_count, ts@);
        }
    }
    let best = get_personal_best(store, username);
    let new_best = match best {
        Some(b) => guess_count < b,
        None => false,
    };
    RoundResult { guess_count, best, new_best }
}

/// A choice of the main menu.
#[derive(Clone, Copy, Debug, PartialEq, Eq)]
pub enum MenuChoice {
    Play,
    Leaderboard,
    Logout,
}

pub open spec fn menu_choice_of(entered: Seq<char>) -> Option<MenuChoice> {
    let t = trimmed(entered);
    if t == seq!['1'] {
        Some(MenuChoice::Play)
    } else if t == seq!['2'] {
        Some(MenuChoice::Leaderboard)
    } else if t == seq!['3'] {
        Some(MenuChoice::Logout)
    } else {
        None
    }
}

/// Reads an entered menu line: `1`, `2` or `3`, surrounding whitespace
/// ignored.
pub fn menu_choice(entered: &str) -> (r: Option<MenuChoice>)
    ensures
        r == menu_choice_of(entered@),
{
    let t = trim_text(entered);
    if t.unicode_len() != 1 {
        return None;
    }
    let c = t.get_char(0);
    assert(t@ =~= seq![c]);
    if c == '1' {
        Some(MenuChoice::Play)
    } else if c == '2' {
        Some(MenuChoice::Leaderboard)
    } else if c == '3' {
        Some(MenuChoice::Logout)
    } else {
        None
    }
}

/// A round played over entered lines from a count of `count`, each line taken
/// as `GameRound::guess` takes it: the count when the secret is found, or
/// `None` when the lines run out first.
pub open spec fn round_over_lines(target: u32, count: nat, lines: Seq<Seq<char>>) -> Option<nat>
    decreases lines.len(),
{
    if lines.len() == 0 {
        None
    } else if outcome_of(target, lines[0]) == GuessOutcome::Correct {
        Some(count_after(count, lines[0]))
    } else {
        round_over_lines(target, count_after(count, lines[0]), lines.drop_first())
    }
}

/// A line that is not a number, entered anywhere in a round, changes neither
/// whether the round is won nor its guess count.
pub proof fn lemma_non_number_line_ignored(
    target: u32,
    count: nat,
    before: Seq<Seq<char>>,
    line: Seq<char>,
    after: Seq<Seq<char>>,
)
    requires
        !is_number_line(line),
    ensures
        round_over_lines(target, count, before + seq![line] + after) == round_over_lines(
            target,
            count,
            before + after,
        ),
    decreases before.len(),
{
    let with = before + seq![line] + after;
    if before.len() == 0 {
        assert(with.drop_first() =~= after);
        assert(before + after =~= after);
        assert(with[0] == line);
    } else {
        assert(with.drop_first() =~= before.drop_first() + seq![line] + after);
        assert((before + after).drop_first() =~= before.drop_first() + after);
        assert(with[0] == before[0]);
        assert((before + after)[0] == before[0]);
        lemma_non_number_line_ignored(target, count, before.drop_first(), line, after);
        lemma_non_number_line_ignored(target, count + 1, before.drop_first(), line, after);
    }
}

} // verus!
