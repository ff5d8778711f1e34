use std::collections::HashMap;
use vstd::prelude::*;

verus! {

/// A pawn on the circular track of ten spaces (indices 0 to 9) and its score.
#[derive(Clone, Copy, Debug, PartialEq, Eq, Structural)]
pub struct Player {
    pub position_index: u32,
    pub score: u32,
}

/// Both players and whose turn it is.
#[derive(Clone, Copy, Debug)]
pub struct GameState {
    pub players: [Player; 2],
    pub cur_player_index: usize,
}

/// The player after moving `spaces` forward and scoring the space it lands on.
pub open spec fn moved(p: Player, spaces: u32) -> Player {
    let pos = ((p.position_index + spaces) % 10) as u32;
    Player { position_index: pos, score: (p.score + pos + 1) as u32 }
}

/// The state after the current player moves `spaces` forward.
pub open spec fn advanced(g: GameState, spaces: u32) -> GameState {
    GameState {
        players: [
            if g.cur_player_index == 0 { moved(g.players[0], spaces) } else { g.players[0] },
            if g.cur_player_index == 1 { moved(g.players[1], spaces) } else { g.players[1] },
        ],
        cur_player_index: ((g.cur_player_index + 1) % 2) as usize,
    }
}

/// The first player, by index, whose score has reached `t`.
pub open spec fn winner(g: GameState, t: u32) -> Option<usize> {
    if g.players[0].score >= t {
        Some(0)
    } else if g.players[1].score >= t {
        Some(1)
    } else {
        None
    }
}

/// Scores stay far enough from `u32::MAX` that a move cannot overflow them.
pub open spec fn scores_fit(g: GameState) -> bool {
    g.players[0].score + 10 <= u32::MAX && g.players[1].score + 10 <= u32::MAX
}

impl Player {
    pub fn move_and_score(&self, spaces: &u32) -> (r: Player)
        requires
            self.score + 10 <= u32::MAX,
        ensures
            r == moved(*self, *spaces),
    {
        let new_position_index = (self.position_index % 10 + *spaces % 10) % 10;
        proof {
            let p = self.position_index as int;
            let s = *spaces as int;
            assert((p % 10 + s % 10) % 10 == (p + s) % 10) by (nonlinear_arith);
        }
        Player { position_index: new_position_index, score: self.score + new_position_index + 1 }
    }
}

impl GameState {
    /// Both pawns on their starting spaces (numbered 1 to 10), no score yet, the first player to move.
    pub fn new(p1_pos: u32, p2_pos: u32) -> (r: GameState)
        requires
            p1_pos >= 1,
            p2_pos >= 1,
        ensures
            r.players[0] == (Player { position_index: (p1_pos - 1) as u32, score: 0 }),
            r.players[1] == (Player { position_index: (p2_pos - 1) as u32, score: 0 }),
            r.cur_player_index == 0,
    {
        GameState {
            players: [
                Player { position_index: p1_pos - 1, score: 0 },
                Player { position_index: p2_pos - 1, score: 0 },
            ],
            cur_player_index: 0,
        }
    }

    /// For each roll total and its frequency, the state that roll leads to, with the same frequency.
    pub fn next_states(&self, freq_distribution: &Vec<(u32, u128)>) -> (r: Vec<(GameState, u128)>)
        requires
            self.cur_player_index < 2,
            scores_fit(*self),
        ensures
            r@.len() == freq_distribution@.len(),
            forall|k: int| 0 <= k < r@.len() ==> #[trigger] r@[k] == (advanced(*self, freq_distribution@[k].0), freq_distribution@[k].1),
    {
        let mut out: Vec<(GameState, u128)> = Vec::new();
        let mut k: usize = 0;
        while k < freq_distribution.len()
            invariant
                k <= freq_distribution@.len(),
                self.cur_player_index < 2,
                scores_fit(*self),
                out@.len() == k,
                forall|j: int| 0 <= j < k ==> #[trigger] out@[j] == (advanced(*self, freq_distribution@[j].0), freq_distribution@[j].1),
            decreases freq_distribution@.len() - k,
        {
            let (rolls_sum, freq) = freq_distribution[k];
            let p0 = if self.cur_player_index == 0 {
                self.players[0].move_and_score(&rolls_sum)
            } else {
                self.players[0]
            };
            let p1 = if self.cur_player_index == 1 {
                self.players[1].move_and_score(&rolls_sum)
            } else {
                self.players[1]
            };
            let new_state = GameState { players: [p0, p1], cur_player_index: (self.cur_player_index + 1) % 2 };
            assert(new_state.players =~= advanced(*self, rolls_sum).players);
            out.push((new_state, freq));
            k = k + 1;
        }
        out
    }

    pub fn winning_player_index(&self, win_threshold: &u32) -> (r: Option<usize>)
        ensures
            r == winner(*self, *win_threshold),
    {
        if self.players[0].score >= *win_threshold {
            Some(0)
        } else if self.players[1].score >= *win_threshold {
            Some(1)
        } else {
            None
        }
    }
}

/// Sum of three rolls of a die of `size` faces that has been rolled `n` times
/// before; it yields 1, 2, ..., `size`, 1, 2, ... in turn.
pub open spec fn deterministic_roll(n: nat, size: u32) -> u32 {
    ((n % (size as nat)) + 1 + ((n + 1) % (size as nat)) + 1 + ((n + 2) % (size as nat)) + 1) as u32
}

/// A die that yields 1, 2, ..., `size` and then starts again.
pub struct DeterministicDie {
    pub size: u32,
    pub num_rolls: u32,
}

impl DeterministicDie {
    pub open spec fn wf(&self) -> bool {
        0 < self.size && 3 * self.size <= u32::MAX
    }

    pub fn new(size: u32) -> (r: DeterministicDie)
        ensures
            r.size == size,
            r.num_rolls == 0,
    {
        DeterministicDie { num_rolls: 0, size }
    }

    /// Rolls three times: the one outcome is their sum, with frequency 1.
    pub fn roll_thrice(&mut self) -> (r: Vec<(u32, u128)>)
        requires
            old(self).wf(),
            old(self).num_rolls + 3 <= u32::MAX,
        ensures
            r@ == seq![(deterministic_roll(old(self).num_rolls as nat, old(self).size), 1u128)],
            final(self).size == old(self).size,
            final(self).num_rolls == old(self).num_rolls + 3,
    {
        let result = (self.num_rolls % self.size) + 1 + ((self.num_rolls + 1) % self.size) + 1 + ((self.num_rolls
            + 2) % self.size) + 1;
        self.num_rolls = self.num_rolls + 3;
        let r = vec![(result, 1u128)];
        assert(r@ =~= seq![(result, 1u128)]);
        r
    }
}

/// The sums of three rolls of a three-sided die, each with the number of the
/// 27 roll sequences that give it.
pub open spec fn dirac_distribution() -> Seq<(u32, u128)> {
    seq![(3u32, 1u128), (4, 3), (5, 6), (6, 7), (7, 6), (8, 3), (9, 1)]
}

/// A die that splits the universe into one copy for each of its three faces.
pub struct DiracDie {}

impl DiracDie {
    pub fn roll_thrice(&mut self) -> (r: Vec<(u32, u128)>)
        ensures
            r@ == dirac_distribution(),
    {
        let r = vec![(3u32, 1u128), (4, 3), (5, 6), (6, 7), (7, 6), (8, 3), (9, 1)];
        assert(r@ =~= dirac_distribution());
        r
    }
}

/// The state and die-roll count at which the game from `g`, with the die rolled
/// `n` times before, first has a winner.
pub open spec fn play_out(g: GameState, n: nat, size: u32, t: u32) -> (GameState, nat)
    decreases 2 * t + 20 - g.players[0].score - g.players[1].score
    via play_out_decreases
{
    if winner(g, t) is Some || g.cur_player_index >= 2 || t + 10 > u32::MAX {
        (g, n)
    } else {
        play_out(advanced(g, deterministic_roll(n, size)), n + 3, size, t)
    }
}

#[via_fn]
proof fn play_out_decreases(g: GameState, n: nat, size: u32, t: u32) {
    if !(winner(g, t) is Some || g.cur_player_index >= 2 || t + 10 > u32::MAX) {
        let g2 = advanced(g, deterministic_roll(n, size));
        lemma_advanced(g, deterministic_roll(n, size));
        assert(g2.players[0].score + g2.players[1].score > g.players[0].score + g.players[1].score);
        assert(0 <= 2 * t + 20 - g2.players[0].score - g2.players[1].score < 2 * t + 20 - g.players[0].score
            - g.players[1].score);
    }
}

/// The current player's score grows by the space it lands on; the other's stays.
pub proof fn lemma_advanced(g: GameState, spaces: u32)
    ensures
        advanced(g, spaces).players[0] == if g.cur_player_index == 0 { moved(g.players[0], spaces) } else { g.players[0] },
        advanced(g, spaces).players[1] == if g.cur_player_index == 1 { moved(g.players[1], spaces) } else { g.players[1] },
        moved(g.players[0], spaces).position_index < 10,
        moved(g.players[1], spaces).position_index < 10,
{
}

pub struct GameResult {
    pub loser_score: u32,
    pub num_rolls: u32,
}

impl GameResult {
    pub fn part1_score(&self) -> (r: u32)
        requires
            self.loser_score * self.num_rolls <= u32::MAX,
        ensures
            r == self.loser_score * self.num_rolls,
    {
        self.loser_score * self.num_rolls
    }
}

/// A game played with a deterministic hundred-sided die.
pub struct DeterministicGameRunner {
    pub game_state: GameState,
    pub die: DeterministicDie,
}

impl DeterministicGameRunner {
    pub fn new(p1_pos: u32, p2_pos: u32) -> (r: DeterministicGameRunner)
        requires
            p1_pos >= 1,
            p2_pos >= 1,
        ensures
            r.game_state.players[0] == (Player { position_index: (p1_pos - 1) as u32, score: 0 }),
            r.game_state.players[1] == (Player { position_index: (p2_pos - 1) as u32, score: 0 }),
            r.game_state.cur_player_index == 0,
            r.die.size == 100,
            r.die.num_rolls == 0,
    {
        DeterministicGameRunner { die: DeterministicDie::new(100), game_state: GameState::new(p1_pos, p2_pos) }
    }

    /// The current player rolls three times and moves.
    pub fn play_turn(&mut self)
        requires
            old(self).die.wf(),
            old(self).die.num_rolls + 3 <= u32::MAX,
            old(self).game_state.cur_player_index < 2,
            scores_fit(old(self).game_state),
        ensures
            final(self).game_state == advanced(
                old(self).game_state,
                deterministic_roll(old(self).die.num_rolls as nat, old(self).die.size),
            ),
            final(self).die.size == old(self).die.size,
            final(self).die.num_rolls == old(self).die.num_rolls + 3,
    {
        let rolls = self.die.roll_thrice();
        let next = self.game_state.next_states(&rolls);
        self.game_state = next[0].0;
    }

    /// Plays turns until a score reaches `win_threshold`, then reports the other
    /// player's score and how often the die was rolled.
    pub fn play_to_completion(&mut self, win_threshold: &u32) -> (r: GameResult)
        requires
            old(self).die.wf(),
            old(self).game_state.cur_player_index < 2,
            *win_threshold + 10 <= u32::MAX,
            old(self).die.num_rolls + 6 * *win_threshold <= u32::MAX,
        ensures
            ({
                let (g, n) = play_out(
                    old(self).game_state,
                    old(self).die.num_rolls as nat,
                    old(self).die.size,
                    *win_threshold,
                );
                &&& final(self).game_state == g
                &&& final(self).die.num_rolls == n
                &&& winner(g, *win_threshold) is Some
                &&& r.loser_score == g.players[((winner(g, *win_threshold).unwrap() + 1) % 2) as int].score
                &&& r.num_rolls == n
            }),
    {
        let t = *win_threshold;
        let ghost target = play_out(self.game_state, self.die.num_rolls as nat, self.die.size, t);
        loop
            invariant
                self.die.wf(),
                self.game_state.cur_player_index < 2,
                t + 10 <= u32::MAX,
                t == *win_threshold,
                self.die.size == old(self).die.size,
                target == play_out(old(self).game_state, old(self).die.num_rolls as nat, old(self).die.size, t),
                winner(self.game_state, t) is None ==> self.die.num_rolls + 3 * (2 * t - self.game_state.players[0].score
                    - self.game_state.players[1].score) <= u32::MAX,
                play_out(self.game_state, self.die.num_rolls as nat, self.die.size, t) == target,
            decreases 2 * t + 20 - self.game_state.players[0].score - self.game_state.players[1].score,
        {
            match self.game_state.winning_player_index(win_threshold) {
                None => {
                    let ghost before = self.game_state;
                    let ghost n = self.die.num_rolls;
                    assert(self.die.num_rolls + 3 <= u32::MAX);
                    self.play_turn();
                    proof {
                        lemma_advanced(before, deterministic_roll(n as nat, self.die.size));
                    }
                },
                Some(winning_player_index) => {
                    assert(play_out(self.game_state, self.die.num_rolls as nat, self.die.size, t) == (
                        self.game_state,
                        self.die.num_rolls as nat,
                    ));
                    return GameResult {
                        loser_score: self.game_state.players[(winning_player_index + 1) % 2].score,
                        num_rolls: self.die.num_rolls,
                    };
                },
            }
        }
    }
}

/// A game that no one has won yet and whose moves cannot overflow a score.
pub open spec fn in_play(g: GameState, t: u32) -> bool {
    winner(g, t) is None && g.cur_player_index < 2 && t + 10 <= u32::MAX
}

/// In how many of the universes that a game from `g` splits into with the
/// Dirac die `player` wins, first to reach `t`.
pub open spec fn wins_from(g: GameState, t: u32, player: nat) -> int
    decreases 2 * t + 20 - g.players[0].score - g.players[1].score
    via wins_from_decreases
{
    match winner(g, t) {
        Some(w) => if w == player {
            1
        } else {
            0
        },
        None => if g.cur_player_index >= 2 || t + 10 > u32::MAX {
            0
        } else {
            wins_from(advanced(g, 3), t, player) + 3 * wins_from(advanced(g, 4), t, player) + 6 * wins_from(advanced(g, 5), t, player) + 7 * wins_from(advanced(g, 6), t, player) + 6 * wins_from(advanced(g, 7), t, player) + 3 * wins_from(advanced(g, 8), t, player) + wins_from(advanced(g, 9), t, player)
        },
    }
}

#[via_fn]
proof fn wins_from_decreases(g: GameState, t: u32, player: nat) {
    if in_play(g, t) {
        let m = 2 * t + 20 - g.players[0].score - g.players[1].score;
        assert forall|spaces: u32| 2 * t + 20 - advanced(g, spaces).players[0].score - advanced(g, spaces).players[1].score
            < m && 0 <= 2 * t + 20 - advanced(g, spaces).players[0].score - advanced(g, spaces).players[1].score by {
            lemma_advanced(g, spaces);
        }
    }
}

/// `wins_from(g, ..)` with the current player's move made whether or not the game is already won.
#[verifier::opaque]
pub open spec fn expand_wins(g: GameState, t: u32, player: nat) -> int {
    wins_from(advanced(g, 3), t, player) + 3 * wins_from(advanced(g, 4), t, player) + 6 * wins_from(advanced(g, 5), t, player) + 7 * wins_from(advanced(g, 6), t, player) + 6 * wins_from(advanced(g, 7), t, player) + 3 * wins_from(advanced(g, 8), t, player) + wins_from(advanced(g, 9), t, player)
}

/// Wins for `player` over a list of games, each counted as often as it is weighted.
pub open spec fn weighted_wins(cs: Seq<(GameState, u128)>, t: u32, player: nat) -> int
    decreases cs.len(),
{
    if cs.len() == 0 {
        0
    } else {
        cs[0].1 * wins_from(cs[0].0, t, player) + weighted_wins(cs.skip(1), t, player)
    }
}

/// Wins for `player` still to come from a list of games about to move, each
/// counted as often as it is weighted.
pub open spec fn pending_wins(cs: Seq<(GameState, u128)>, t: u32, player: nat) -> int
    decreases cs.len(),
{
    if cs.len() == 0 {
        0
    } else {
        cs[0].1 * expand_wins(cs[0].0, t, player) + pending_wins(cs.skip(1), t, player)
    }
}

pub open spec fn score_sum(g: GameState) -> int {
    g.players[0].score + g.players[1].score
}

proof fn lemma_pending_push(cs: Seq<(GameState, u128)>, x: (GameState, u128), t: u32, player: nat)
    ensures
        pending_wins(cs.push(x), t, player) == pending_wins(cs, t, player) + x.1 * expand_wins(x.0, t, player),
    decreases cs.len(),
{
    if cs.len() > 0 {
        assert(cs.push(x).skip(1) =~= cs.skip(1).push(x));
        lemma_pending_push(cs.skip(1), x, t, player);
        assert(cs.push(x)[0] == cs[0]);
        assert(pending_wins(cs.push(x), t, player) == cs[0].1 * expand_wins(cs[0].0, t, player) + pending_wins(
            cs.skip(1).push(x),
            t,
            player,
        ));
        assert(pending_wins(cs, t, player) == cs[0].1 * expand_wins(cs[0].0, t, player) + pending_wins(cs.skip(1), t, player));
        assert(pending_wins(cs.skip(1).push(x), t, player) == pending_wins(cs.skip(1), t, player) + x.1 * expand_wins(x.0, t, player));
    } else {
        assert(pending_wins(cs, t, player) == 0);
        assert(pending_wins(cs.push(x).skip(1), t, player) == 0);
        assert(cs.push(x).skip(1) =~= Seq::<(GameState, u128)>::empty());
    }
}

proof fn lemma_pending_update(cs: Seq<(GameState, u128)>, j: int, c: u128, t: u32, player: nat)
    requires
        0 <= j < cs.len(),
    ensures
        pending_wins(cs.update(j, (cs[j].0, c)), t, player) == pending_wins(cs, t, player) + (c - cs[j].1)
            * expand_wins(cs[j].0, t, player),
    decreases j,
{
    let e = expand_wins(cs[j].0, t, player);
    if j == 0 {
        assert(cs.update(j, (cs[j].0, c)).skip(1) =~= cs.skip(1));
        assert(c * e == cs[0].1 * e + (c - cs[0].1) * e) by (nonlinear_arith);
    } else {
        assert(cs.update(j, (cs[j].0, c)).skip(1) =~= cs.skip(1).update(j - 1, (cs[j].0, c)));
        lemma_pending_update(cs.skip(1), j - 1, c, t, player);
    }
}

proof fn lemma_in_play_wins(g: GameState, t: u32, player: nat)
    requires
        in_play(g, t),
    ensures
        wins_from(g, t, player) == expand_wins(g, t, player),
{
    reveal(expand_wins);
}

/// No player wins in a negative number of universes.
proof fn lemma_wins_nonneg(g: GameState, t: u32, player: nat)
    ensures
        wins_from(g, t, player) >= 0,
    decreases 2 * t + 20 - g.players[0].score - g.players[1].score,
{
    if in_play(g, t) {
        lemma_advanced(g, 3);
        lemma_wins_nonneg(advanced(g, 3), t, player);
        lemma_advanced(g, 4);
        lemma_wins_nonneg(advanced(g, 4), t, player);
        lemma_advanced(g, 5);
        lemma_wins_nonneg(advanced(g, 5), t, player);
        lemma_advanced(g, 6);
        lemma_wins_nonneg(advanced(g, 6), t, player);
        lemma_advanced(g, 7);
        lemma_wins_nonneg(advanced(g, 7), t, player);
        lemma_advanced(g, 8);
        lemma_wins_nonneg(advanced(g, 8), t, player);
        lemma_advanced(g, 9);
        lemma_wins_nonneg(advanced(g, 9), t, player);
    }
}

/// Every game, once its moves cannot overflow a score, is won by someone in at least one universe.
proof fn lemma_wins_total(g: GameState, t: u32)
    requires
        g.cur_player_index < 2,
        t + 10 <= u32::MAX,
    ensures
        wins_from(g, t, 0) + wins_from(g, t, 1) >= 1,
    decreases 2 * t + 20 - g.players[0].score - g.players[1].score,
{
    if winner(g, t) is None {
        lemma_advanced(g, 3);
        lemma_wins_total(advanced(g, 3), t);
        lemma_wins_nonneg(advanced(g, 4), t, 0);
        lemma_wins_nonneg(advanced(g, 4), t, 1);
        lemma_wins_nonneg(advanced(g, 5), t, 0);
        lemma_wins_nonneg(advanced(g, 5), t, 1);
        lemma_wins_nonneg(advanced(g, 6), t, 0);
        lemma_wins_nonneg(advanced(g, 6), t, 1);
        lemma_wins_nonneg(advanced(g, 7), t, 0);
        lemma_wins_nonneg(advanced(g, 7), t, 1);
        lemma_wins_nonneg(advanced(g, 8), t, 0);
        lemma_wins_nonneg(advanced(g, 8), t, 1);
        lemma_wins_nonneg(advanced(g, 9), t, 0);
        lemma_wins_nonneg(advanced(g, 9), t, 1);
    }
}

proof fn lemma_expand_nonneg(g: GameState, t: u32, player: nat)
    ensures
        expand_wins(g, t, player) >= 0,
{
    reveal(expand_wins);
    lemma_wins_nonneg(advanced(g, 3), t, player);
    lemma_wins_nonneg(advanced(g, 4), t, player);
    lemma_wins_nonneg(advanced(g, 5), t, player);
    lemma_wins_nonneg(advanced(g, 6), t, player);
    lemma_wins_nonneg(advanced(g, 7), t, player);
    lemma_wins_nonneg(advanced(g, 8), t, player);
    lemma_wins_nonneg(advanced(g, 9), t, player);
}

proof fn lemma_pending_nonneg(cs: Seq<(GameState, u128)>, t: u32, player: nat)
    ensures
        pending_wins(cs, t, player) >= 0,
    decreases cs.len(),
{
    if cs.len() > 0 {
        lemma_pending_nonneg(cs.skip(1), t, player);
        lemma_expand_nonneg(cs[0].0, t, player);
        let (a, b) = (cs[0].1 as int, expand_wins(cs[0].0, t, player));
        assert(a * b >= 0) by (nonlinear_arith)
            requires
                a >= 0,
                b >= 0,
        ;
    }
}

proof fn lemma_weighted_nonneg(cs: Seq<(GameState, u128)>, t: u32, player: nat)
    ensures
        weighted_wins(cs, t, player) >= 0,
    decreases cs.len(),
{
    if cs.len() > 0 {
        lemma_weighted_nonneg(cs.skip(1), t, player);
        lemma_wins_nonneg(cs[0].0, t, player);
        let (a, b) = (cs[0].1 as int, wins_from(cs[0].0, t, player));
        assert(a * b >= 0) by (nonlinear_arith)
            requires
                a >= 0,
                b >= 0,
        ;
    }
}

/// An entry of a list of games in play counts at least its weight towards the wins still to come.
proof fn lemma_pending_entry(cs: Seq<(GameState, u128)>, j: int, t: u32)
    requires
        0 <= j < cs.len(),
        in_play(cs[j].0, t),
    ensures
        pending_wins(cs, t, 0) + pending_wins(cs, t, 1) >= cs[j].1,
    decreases cs.len(),
{
    lemma_pending_nonneg(cs.skip(1), t, 0);
    lemma_pending_nonneg(cs.skip(1), t, 1);
    lemma_expand_nonneg(cs[0].0, t, 0);
    lemma_expand_nonneg(cs[0].0, t, 1);
    let a = cs[0].1 as int;
    let (e0, e1) = (expand_wins(cs[0].0, t, 0), expand_wins(cs[0].0, t, 1));
    assert(a * e0 >= 0 && a * e1 >= 0) by (nonlinear_arith)
        requires
            a >= 0,
            e0 >= 0,
            e1 >= 0,
    ;
    if j == 0 {
        lemma_in_play_wins(cs[0].0, t, 0);
        lemma_in_play_wins(cs[0].0, t, 1);
        lemma_wins_total(cs[0].0, t);
        assert(a * e0 + a * e1 >= a) by (nonlinear_arith)
            requires
                a >= 0,
                e0 >= 0,
                e1 >= 0,
                e0 + e1 >= 1,
        ;
    } else {
        lemma_pending_entry(cs.skip(1), j - 1, t);
    }
}

proof fn lemma_dirac_children(g: GameState, cs: Seq<(GameState, u128)>, t: u32, player: nat)
    requires
        cs.len() == 7,
        forall|k: int| 0 <= k < 7 ==> #[trigger] cs[k] == (advanced(g, dirac_distribution()[k].0), dirac_distribution()[k].1),
    ensures
        weighted_wins(cs, t, player) == expand_wins(g, t, player),
{
    reveal(expand_wins);
    let c1 = cs.skip(1);
    let c2 = c1.skip(1);
    let c3 = c2.skip(1);
    let c4 = c3.skip(1);
    let c5 = c4.skip(1);
    let c6 = c5.skip(1);
    let c7 = c6.skip(1);
    assert(c7 =~= Seq::<(GameState, u128)>::empty());
    assert(c1[0] == cs[1] && c2[0] == cs[2] && c3[0] == cs[3] && c4[0] == cs[4] && c5[0] == cs[5] && c6[0] == cs[6]);
    assert(cs[0] == (advanced(g, 3), 1u128));
    assert(cs[1] == (advanced(g, 4), 3u128));
    assert(cs[2] == (advanced(g, 5), 6u128));
    assert(cs[3] == (advanced(g, 6), 7u128));
    assert(cs[4] == (advanced(g, 7), 6u128));
    assert(cs[5] == (advanced(g, 8), 3u128));
    assert(cs[6] == (advanced(g, 9), 1u128));
    assert(weighted_wins(c7, t, player) == 0);
    let w9 = wins_from(advanced(g, 9), t, player);
    let w3 = wins_from(advanced(g, 3), t, player);
    assert(1 * w9 == w9 && 1 * w3 == w3) by (nonlinear_arith);
    assert(weighted_wins(c6, t, player) == c6[0].1 * wins_from(c6[0].0, t, player) + weighted_wins(c7, t, player));
    assert(weighted_wins(c6, t, player) == wins_from(advanced(g, 9), t, player));
    assert(weighted_wins(c5, t, player) == 3 * wins_from(advanced(g, 8), t, player) + weighted_wins(c6, t, player));
    assert(weighted_wins(c4, t, player) == 6 * wins_from(advanced(g, 7), t, player) + weighted_wins(c5, t, player));
    assert(weighted_wins(c3, t, player) == 7 * wins_from(advanced(g, 6), t, player) + weighted_wins(c4, t, player));
    assert(weighted_wins(c2, t, player) == 6 * wins_from(advanced(g, 5), t, player) + weighted_wins(c3, t, player));
    assert(weighted_wins(c1, t, player) == 3 * wins_from(advanced(g, 4), t, player) + weighted_wins(c2, t, player));
    assert(weighted_wins(cs, t, player) == wins_from(advanced(g, 3), t, player) + weighted_wins(c1, t, player));
}

/// A key for `g`; equal states get equal keys.
fn state_key(g: &GameState) -> (r: u128) {
    let s1 = g.players[1].score as u128;
    let s0 = g.players[0].score as u128;
    let p1 = (g.players[1].position_index % 10) as u128;
    let p0 = (g.players[0].position_index % 10) as u128;
    let cur = (g.cur_player_index % 2) as u128;
    s1 * 0x1_0000_0000_0000_0000 + s0 * 0x1_0000_0000 + p0 * 20 + p1 * 2 + cur
}

fn same_state(a: &GameState, b: &GameState) -> (r: bool)
    ensures
        r ==> *a == *b,
{
    let r = a.cur_player_index == b.cur_player_index && a.players[0] == b.players[0] && a.players[1] == b.players[1];
    if r {
        assert(a.players =~= b.players);
    }
    r
}

/// Adds `w` universes of game `h`, in play, to `games`, merging it with an equal
/// game already there.
fn add_game(games: &mut Vec<(GameState, u128)>, index: &mut HashMap<u128, usize>, h: GameState, w: u128, t: u32) -> (r: bool)
    ensures
        r ==> pending_wins(final(games)@, t, 0) == pending_wins(old(games)@, t, 0) + w * expand_wins(h, t, 0),
        r ==> pending_wins(final(games)@, t, 1) == pending_wins(old(games)@, t, 1) + w * expand_wins(h, t, 1),
        forall|m: int| 0 <= m < final(games)@.len() ==> (#[trigger] final(games)@[m]).0 == h || (m < old(games)@.len()
            && final(games)@[m].0 == old(games)@[m].0),
        !r ==> final(games)@ == old(games)@,
        !r ==> exists|j: int| 0 <= j < old(games)@.len() && (#[trigger] old(games)@[j]).0 == h && old(games)@[j].1 + w > u128::MAX,
{
    let key = state_key(&h);
    let found: Option<usize> = match index.get(&key) {
        Some(j) => Some(*j),
        None => None,
    };
    let ghost before = games@;
    match found {
        Some(j) => {
            if j < games.len() && same_state(&games[j].0, &h) {
                match games[j].1.checked_add(w) {
                    Some(total) => {
                        proof {
                            lemma_pending_update(games@, j as int, total, t, 0);
                            lemma_pending_update(games@, j as int, total, t, 1);
                        }
                        games.set(j, (h, total));
                        return true;
                    },
                    None => {
                        assert(games@[j as int].0 == h);
                        return false;
                    },
                }
            }
        },
        None => {},
    }
    index.insert(key, games.len());
    proof {
        lemma_pending_push(games@, (h, w), t, 0);
        lemma_pending_push(games@, (h, w), t, 1);
    }
    games.push((h, w));
    true
}

/// Every game of `games` is in play and has a score sum of at least `bound`.
pub open spec fn all_in_play(games: Seq<(GameState, u128)>, t: u32, bound: int) -> bool {
    forall|m: int| 0 <= m < games.len() ==> in_play((#[trigger] games[m]).0, t) && score_sum(games[m].0) >= bound
}

/// Plays one turn of `c` universes of game `g` with the Dirac die: the universes
/// where someone has won go to `win_counts`, the others join `games`.
fn spread_game(
    games: &mut Vec<(GameState, u128)>,
    index: &mut HashMap<u128, usize>,
    win_counts: &mut [u128; 2],
    g: GameState,
    c: u128,
    t: u32,
    bound: Ghost<int>,
) -> (r: bool)
    requires
        g.cur_player_index < 2,
        scores_fit(g),
        t + 10 <= u32::MAX,
        score_sum(g) + 1 >= bound@,
        all_in_play(old(games)@, t, bound@),
    ensures
        all_in_play(final(games)@, t, bound@),
        r ==> final(win_counts)[0] + pending_wins(final(games)@, t, 0) == old(win_counts)[0] + pending_wins(
            old(games)@,
            t,
            0,
        ) + c * expand_wins(g, t, 0),
        r ==> final(win_counts)[1] + pending_wins(final(games)@, t, 1) == old(win_counts)[1] + pending_wins(
            old(games)@,
            t,
            1,
        ) + c * expand_wins(g, t, 1),
        !r ==> old(win_counts)[0] + old(win_counts)[1] + pending_wins(old(games)@, t, 0) + pending_wins(old(games)@, t, 1)
            + c * expand_wins(g, t, 0) + c * expand_wins(g, t, 1) > u128::MAX,
{
    let mut die = DiracDie {};
    let rolls = die.roll_thrice();
    let children = g.next_states(&rolls);
    proof {
        lemma_dirac_children(g, children@, t, 0);
        lemma_dirac_children(g, children@, t, 1);
        assert(children@.skip(0) =~= children@);
    }
    let ghost goal0 = old(win_counts)[0] + pending_wins(old(games)@, t, 0) + c * expand_wins(g, t, 0);
    let ghost goal1 = old(win_counts)[1] + pending_wins(old(games)@, t, 1) + c * expand_wins(g, t, 1);
    let mut k: usize = 0;
    while k < 7
        invariant
            k <= 7,
            children@.len() == 7,
            forall|j: int| 0 <= j < 7 ==> #[trigger] children@[j] == (advanced(g, rolls@[j].0), rolls@[j].1),
            rolls@ == dirac_distribution(),
            g.cur_player_index < 2,
            scores_fit(g),
            t + 10 <= u32::MAX,
            score_sum(g) + 1 >= bound@,
            all_in_play(games@, t, bound@),
            goal0 == old(win_counts)[0] + pending_wins(old(games)@, t, 0) + c * expand_wins(g, t, 0),
            goal1 == old(win_counts)[1] + pending_wins(old(games)@, t, 1) + c * expand_wins(g, t, 1),
            win_counts[0] + pending_wins(games@, t, 0) + c * weighted_wins(children@.skip(k as int), t, 0) == goal0,
            win_counts[1] + pending_wins(games@, t, 1) + c * weighted_wins(children@.skip(k as int), t, 1) == goal1,
        decreases 7 - k,
    {
        let (h, f) = children[k];
        let ghost rest = children@.skip(k as int);
        proof {
            assert(rest[0] == (h, f));
            assert(rest.skip(1) =~= children@.skip(k + 1));
            lemma_advanced(g, rolls@[k as int].0);
            let wh0 = wins_from(h, t, 0);
            let wh1 = wins_from(h, t, 1);
            let r0 = weighted_wins(children@.skip(k + 1), t, 0);
            let r1 = weighted_wins(children@.skip(k + 1), t, 1);
            assert(c * (f * wh0 + r0) == (c * f) * wh0 + c * r0) by (nonlinear_arith);
            assert(c * (f * wh1 + r1) == (c * f) * wh1 + c * r1) by (nonlinear_arith);
        }
        proof {
            lemma_advanced(g, rolls@[k as int].0);
            lemma_wins_total(h, t);
            lemma_wins_nonneg(h, t, 0);
            lemma_wins_nonneg(h, t, 1);
            lemma_weighted_nonneg(children@.skip(k + 1), t, 0);
            lemma_weighted_nonneg(children@.skip(k + 1), t, 1);
            lemma_pending_nonneg(games@, t, 0);
            lemma_pending_nonneg(games@, t, 1);
            let (wh0, wh1) = (wins_from(h, t, 0), wins_from(h, t, 1));
            let (r0, r1) = (weighted_wins(children@.skip(k + 1), t, 0), weighted_wins(children@.skip(k + 1), t, 1));
            let (ci, fi) = (c as int, f as int);
            assert(ci * fi * wh0 + ci * r0 + ci * fi * wh1 + ci * r1 >= ci * fi && ci * fi * wh0 >= 0 && ci * fi * wh1 >= 0
                && ci * r0 >= 0 && ci * r1 >= 0 && ci * fi * (wh0 + wh1) >= ci * fi) by (nonlinear_arith)
                requires
                    ci >= 0,
                    fi >= 0,
                    wh0 >= 0,
                    wh1 >= 0,
                    wh0 + wh1 >= 1,
                    r0 >= 0,
                    r1 >= 0,
            ;
        }
        let w = match c.checked_mul(f) {
            Some(w) => w,
            None => {
                return false;
            },
        };
        match h.winning_player_index(&t) {
            Some(x) => {
                match win_counts[x].checked_add(w) {
                    Some(total) => {
                        win_counts[x] = total;
                    },
                    None => {
                        return false;
                    },
                }
            },
            None => {
                proof {
                    lemma_in_play_wins(h, t, 0);
                    lemma_in_play_wins(h, t, 1);
                }
                let ghost before = games@;
                let ok = add_game(games, index, h, w, t);
                proof {
                    if !ok {
                        let j = choose|j: int| 0 <= j < before.len() && (#[trigger] before[j]).0 == h && before[j].1 + w > u128::MAX;
                        lemma_pending_entry(before, j, t);
                        let (wh0, wh1) = (wins_from(h, t, 0), wins_from(h, t, 1));
                        let wi = w as int;
                        assert(wi * wh0 + wi * wh1 >= wi) by (nonlinear_arith)
                            requires
                                wi >= 0,
                                wh0 >= 0,
                                wh1 >= 0,
                                wh0 + wh1 >= 1,
                        ;
                    }
                }
                proof {
                    assert forall|m: int| 0 <= m < games@.len() implies in_play((#[trigger] games@[m]).0, t) && score_sum(
                        games@[m].0,
                    ) >= bound@ by {
                        if games@[m].0 != h {
                            assert(before[m].0 == games@[m].0);
                        }
                    }
                }
                if !ok {
                    return false;
                }
            },
        }
        k = k + 1;
    }
    proof {
        assert(children@.skip(7) =~= Seq::<(GameState, u128)>::empty());
    }
    true
}

/// Games played with the Dirac die: every roll splits the universe.
pub struct NondeterministicGameRunner {
    pub die: DiracDie,
    /// Each game not yet won, with the number of universes it is played in.
    pub unfinished_games: Vec<(GameState, u128)>,
    pub win_counts: [u128; 2],
}

impl NondeterministicGameRunner {
    /// One universe, with both pawns on their starting spaces; no wins yet.
    pub fn new(p1_pos: u32, p2_pos: u32) -> (r: NondeterministicGameRunner)
        requires
            p1_pos >= 1,
            p2_pos >= 1,
        ensures
            r.unfinished_games@.len() == 1,
            r.unfinished_games@[0].0.players[0] == (Player { position_index: (p1_pos - 1) as u32, score: 0 }),
            r.unfinished_games@[0].0.players[1] == (Player { position_index: (p2_pos - 1) as u32, score: 0 }),
            r.unfinished_games@[0].0.cur_player_index == 0,
            r.unfinished_games@[0].1 == 1,
            r.win_counts[0] == 0,
            r.win_counts[1] == 0,
    {
        NondeterministicGameRunner {
            die: DiracDie {},
            unfinished_games: vec![(GameState::new(p1_pos, p2_pos), 1)],
            win_counts: [0, 0],
        }
    }

    /// Plays every unfinished game to its end in every universe, adding the
    /// universes each player wins to `win_counts`. Returns `false`, leaving the
    /// counts unfinished, only where the universes to be counted, together with
    /// the wins already counted, exceed `u128::MAX`.
    pub fn play_to_completion(&mut self, win_threshold: &u32) -> (r: bool)
        requires
            *win_threshold + 10 <= u32::MAX,
            forall|m: int| 0 <= m < old(self).unfinished_games@.len() ==> (#[trigger] old(self).unfinished_games@[m]).0.cur_player_index
                < 2 && scores_fit(old(self).unfinished_games@[m].0),
        ensures
            r ==> final(self).unfinished_games@.len() == 0,
            r ==> final(self).win_counts[0] == old(self).win_counts[0] + pending_wins(
                old(self).unfinished_games@,
                *win_threshold,
                0,
            ),
            r ==> final(self).win_counts[1] == old(self).win_counts[1] + pending_wins(
                old(self).unfinished_games@,
                *win_threshold,
                1,
            ),
            !r ==> old(self).win_counts[0] + pending_wins(old(self).unfinished_games@, *win_threshold, 0)
                + old(self).win_counts[1] + pending_wins(old(self).unfinished_games@, *win_threshold, 1) > u128::MAX,
    {
        let t = *win_threshold;
        let ghost target0 = old(self).win_counts[0] + pending_wins(old(self).unfinished_games@, t, 0);
        let ghost target1 = old(self).win_counts[1] + pending_wins(old(self).unfinished_games@, t, 1);
        let ghost mut rounds: int = 0;
        while self.unfinished_games.len() > 0
            invariant
                t == *win_threshold,
                t + 10 <= u32::MAX,
                target0 == old(self).win_counts[0] + pending_wins(old(self).unfinished_games@, t, 0),
                target1 == old(self).win_counts[1] + pending_wins(old(self).unfinished_games@, t, 1),
                rounds >= 0,
                forall|m: int| 0 <= m < self.unfinished_games@.len() ==> (#[trigger] self.unfinished_games@[m]).0.cur_player_index
                    < 2 && scores_fit(self.unfinished_games@[m].0) && score_sum(self.unfinished_games@[m].0) >= rounds,
                rounds > 0 ==> all_in_play(self.unfinished_games@, t, rounds),
                self.win_counts[0] + pending_wins(self.unfinished_games@, t, 0) == target0,
                self.win_counts[1] + pending_wins(self.unfinished_games@, t, 1) == target1,
            decreases 2 * t + 1 - rounds,
        {
            proof {
                let e = self.unfinished_games@[0].0;
                if rounds > 0 {
                    assert(in_play(e, t));
                }
            }
            let mut games: Vec<(GameState, u128)> = Vec::new();
            let mut index: HashMap<u128, usize> = HashMap::new();
            let n = self.unfinished_games.len();
            let mut i: usize = 0;
            proof {
                assert(self.unfinished_games@.skip(0) =~= self.unfinished_games@);
            }
            while i < n
                invariant
                    n == self.unfinished_games@.len(),
                    i <= n,
                    t + 10 <= u32::MAX,
                    t == *win_threshold,
                    target0 == old(self).win_counts[0] + pending_wins(old(self).unfinished_games@, t, 0),
                    target1 == old(self).win_counts[1] + pending_wins(old(self).unfinished_games@, t, 1),
                    forall|m: int| 0 <= m < self.unfinished_games@.len() ==> (#[trigger] self.unfinished_games@[m]).0.cur_player_index
                        < 2 && scores_fit(self.unfinished_games@[m].0) && score_sum(self.unfinished_games@[m].0) >= rounds,
                    all_in_play(games@, t, rounds + 1),
                    self.win_counts[0] + pending_wins(games@, t, 0) + pending_wins(self.unfinished_games@.skip(i as int), t, 0)
                        == target0,
                    self.win_counts[1] + pending_wins(games@, t, 1) + pending_wins(self.unfinished_games@.skip(i as int), t, 1)
                        == target1,
                decreases n - i,
            {
                let (g, c) = self.unfinished_games[i];
                proof {
                    let rest = self.unfinished_games@.skip(i as int);
                    assert(rest[0] == (g, c));
                    assert(rest.skip(1) =~= self.unfinished_games@.skip(i + 1));
                    if i == 0 {
                        assert(self.unfinished_games@.skip(0) =~= self.unfinished_games@);
                    }
                }
                let ghost old_wins = self.win_counts;
                let ghost old_games = games@;
                let ok = spread_game(&mut games, &mut index, &mut self.win_counts, g, c, t, Ghost(rounds + 1));
                if !ok {
                    proof {
                        let rest = self.unfinished_games@.skip(i as int);
                        assert(rest.skip(1) =~= self.unfinished_games@.skip(i + 1));
                        lemma_pending_nonneg(self.unfinished_games@.skip(i + 1), t, 0);
                        lemma_pending_nonneg(self.unfinished_games@.skip(i + 1), t, 1);
                        assert(pending_wins(rest, t, 0) == c * expand_wins(g, t, 0) + pending_wins(rest.skip(1), t, 0));
                        assert(pending_wins(rest, t, 1) == c * expand_wins(g, t, 1) + pending_wins(rest.skip(1), t, 1));
                    }
                    return false;
                }
                i = i + 1;
            }
            proof {
                assert(self.unfinished_games@.skip(n as int) =~= Seq::<(GameState, u128)>::empty());
            }
            self.unfinished_games = games;
            proof {
                rounds = rounds + 1;
            }
        }
        true
    }
}

} // verus!
