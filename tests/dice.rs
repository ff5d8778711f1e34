use aoc2021::dice::{
    DeterministicDie, DeterministicGameRunner, DiracDie, GameResult, GameState, NondeterministicGameRunner, Player,
};

#[test]
fn test_example_gives_correct_part1_result() {
    // Player 1 starting position: 4
    // Player 2 starting position: 8
    let mut runner = DeterministicGameRunner::new(4, 8);
    let game_result = runner.play_to_completion(&1000);
    assert_eq!(game_result.num_rolls, 993);
    assert_eq!(game_result.loser_score, 745);
    let p1 = game_result.part1_score();
    assert_eq!(p1, 739785);
}

#[test]
fn test_example_two_moves() {
    let mut runner = DeterministicGameRunner::new(4, 8);
    runner.play_turn();
    runner.play_turn();
    assert_eq!(runner.game_state.players[0].score, 10);
    assert_eq!(runner.game_state.players[1].score, 3);
}

#[test]
fn move_wraps_round_the_track() {
    let p = Player { position_index: 7, score: 5 };
    let moved = p.move_and_score(&6);
    assert_eq!(moved, Player { position_index: 3, score: 9 });
}

#[test]
fn deterministic_die_wraps_after_its_size() {
    let mut die = DeterministicDie::new(10);
    assert_eq!(die.roll_thrice(), vec![(6, 1)]);
    assert_eq!(die.roll_thrice(), vec![(15, 1)]);
    assert_eq!(die.roll_thrice(), vec![(24, 1)]);
    // 10 + 1 + 2
    assert_eq!(die.roll_thrice(), vec![(13, 1)]);
    assert_eq!(die.num_rolls, 12);
}

#[test]
fn dirac_die_covers_all_27_outcomes() {
    let mut die = DiracDie {};
    let rolls = die.roll_thrice();
    assert_eq!(rolls.iter().map(|r| r.1).sum::<u128>(), 27);
    assert_eq!(rolls[3], (6, 7));
}

#[test]
fn next_states_moves_only_the_current_player() {
    let state = GameState::new(4, 8);
    let next = state.next_states(&vec![(5, 2), (9, 1)]);
    assert_eq!(next.len(), 2);
    assert_eq!(next[0].0.players[0], Player { position_index: 8, score: 9 });
    assert_eq!(next[0].0.players[1], Player { position_index: 7, score: 0 });
    assert_eq!(next[0].0.cur_player_index, 1);
    assert_eq!(next[0].1, 2);
    assert_eq!(next[1].0.players[0], Player { position_index: 2, score: 3 });
}

#[test]
fn winner_is_first_player_at_threshold() {
    let mut state = GameState::new(1, 1);
    assert_eq!(state.winning_player_index(&5), None);
    state.players[1].score = 5;
    assert_eq!(state.winning_player_index(&5), Some(1));
    state.players[0].score = 7;
    assert_eq!(state.winning_player_index(&5), Some(0));
}

#[test]
fn part1_score_multiplies() {
    let r = GameResult { loser_score: 12, num_rolls: 30 };
    assert_eq!(r.part1_score(), 360);
}

#[test]
fn test_example_gives_correct_part2_result() {
    let mut runner = NondeterministicGameRunner::new(4, 8);
    runner.play_to_completion(&21);
    assert_eq!(runner.win_counts[0], 444356092776315);
    assert_eq!(runner.win_counts[1], 341960390180808);
}

#[test]
fn dirac_game_to_one_point_splits_all_27_universes() {
    // The first player reaches 1 point with any roll.
    let mut runner = NondeterministicGameRunner::new(4, 8);
    assert!(runner.play_to_completion(&1));
    assert_eq!(runner.win_counts, [27, 0]);
    assert!(runner.unfinished_games.is_empty());
}

#[test]
fn dirac_game_of_three_turns() {
    // Threshold 4, from spaces 2 and 5. The first player wins at once with a
    // roll sum of 3 to 8 (26 universes); a 9 lands on space 1. The second
    // player then wins with 3, 4, 5 or 9 (1 + 3 + 6 + 1 = 11 universes); in the
    // other 16 the first player wins with any roll: 16 * 27 = 432.
    let mut runner = NondeterministicGameRunner::new(2, 5);
    assert!(runner.play_to_completion(&4));
    assert_eq!(runner.win_counts, [26 + 432, 11]);
}
