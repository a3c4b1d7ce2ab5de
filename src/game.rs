use vstd::prelude::*;

verus! {

/// Fewest players a game can seat.
pub const MIN_PLAYERS: u8 = 3;

/// Most players a game can seat.
pub const MAX_PLAYERS: u8 = 6;

/// Points earned at the end of a round by a player who picked `coins`
/// coins and won `tricks` tricks: an exact bid earns the tricks plus a
/// bonus of two, a missed bid earns the tricks less the size of the miss.
pub open spec fn round_score(coins: int, tricks: int) -> int {
    if tricks == coins {
        tricks + 2
    } else {
        tricks - abs_diff(tricks, coins)
    }
}

/// Distance between two integers.
pub open spec fn abs_diff(a: int, b: int) -> int {
    if a >= b {
        a - b
    } else {
        b - a
    }
}

/// What a player's record means: the bid and the tricks of the current
/// round, and the points gathered over all finished rounds.
pub struct PlayerView {
    pub picked_coins: nat,
    pub tricks_won: nat,
    pub points: int,
}

impl PlayerView {
    /// A record of a player who has picked nothing, won nothing and scored nothing.
    pub open spec fn fresh() -> PlayerView {
        PlayerView { picked_coins: 0, tricks_won: 0, points: 0 }
    }

    /// The record after the round is scored: points updated, counters cleared.
    pub open spec fn scored(self) -> PlayerView {
        PlayerView {
            picked_coins: 0,
            tricks_won: 0,
            points: self.points + round_score(self.picked_coins as int, self.tricks_won as int),
        }
    }

    /// Scoring the round keeps the points within the range of `i8`.
    pub open spec fn score_fits(self) -> bool {
        i8::MIN <= self.scored().points <= i8::MAX
    }
}

/// One player's counters for the current round and their running score.
#[derive(Clone, Copy)]
pub struct Player {
    picked_coins: u8,
    tricks_won: u8,
    points: i8,
}

impl View for Player {
    type V = PlayerView;

    closed spec fn view(&self) -> PlayerView {
        PlayerView {
            picked_coins: self.picked_coins as nat,
            tricks_won: self.tricks_won as nat,
            points: self.points as int,
        }
    }
}

impl Player {
    /// Creates a player with no coins, no tricks and no points.
    pub fn new() -> (r: Player)
        ensures
            r@ == PlayerView::fresh(),
    {
        Player { picked_coins: 0, tricks_won: 0, points: 0 }
    }

    /// Adds this round's points to the score and clears the round's counters.
    pub fn next_round(&mut self)
        requires
            old(self)@.score_fits(),
        ensures
            final(self)@ == old(self)@.scored(),
            final(self)@.points == old(self)@.points + round_score(
                old(self)@.picked_coins as int,
                old(self)@.tricks_won as int,
            ),
    {
        let coins = self.picked_coins as i16;
        let tricks = self.tricks_won as i16;
        let delta: i16 = if tricks == coins {
            tricks + 2
        } else if tricks >= coins {
            tricks - (tricks - coins)
        } else {
            tricks - (coins - tricks)
        };
        self.points = (self.points as i16 + delta) as i8;
        self.picked_coins = 0;
        self.tricks_won = 0;
    }
}


/// Sum of the tricks won this round over a seating of players.
pub open spec fn tricks_total(players: Seq<PlayerView>) -> nat
    decreases players.len(),
{
    if players.len() == 0 {
        0
    } else {
        tricks_total(players.drop_last()) + players.last().tricks_won
    }
}

/// What a game means: the players in seating order, the round being
/// played (which also caps each round's coins and tricks) and the seat
/// that opens the round.
pub struct GameView {
    pub players: Seq<PlayerView>,
    pub current_round: nat,
    pub starting_player: nat,
}

impl GameView {
    /// The game's invariant.
    pub open spec fn wf(self) -> bool {
        &&& MIN_PLAYERS as nat <= self.players.len() <= MAX_PLAYERS as nat
        &&& 1 <= self.current_round
        &&& self.starting_player < self.players.len()
        &&& forall|i: int|
            0 <= i < self.players.len() ==> {
                &&& (#[trigger] self.players[i]).picked_coins <= self.current_round
                &&& self.players[i].tricks_won <= self.current_round
            }
        &&& tricks_total(self.players) <= self.current_round
    }

    /// A game of `count` fresh players in its first round.
    pub open spec fn started(self, count: nat) -> bool {
        &&& self.players.len() == count
        &&& forall|i: int| 0 <= i < count ==> self.players[i] == PlayerView::fresh()
        &&& self.current_round == 1
        &&& self.starting_player < count
    }

    /// Tricks won at the table this round.
    pub open spec fn total_tricks(self) -> nat {
        tricks_total(self.players)
    }

    /// The game with player `p`'s record replaced.
    pub open spec fn with_player(self, p: int, rec: PlayerView) -> GameView {
        GameView {
            players: self.players.update(p, rec),
            current_round: self.current_round,
            starting_player: self.starting_player,
        }
    }

    pub open spec fn can_pick(self, p: int) -> bool {
        self.players[p].picked_coins < self.current_round
    }

    /// The game after player `p` tries to pick a coin.
    pub open spec fn pick_step(self, p: int) -> GameView {
        if self.can_pick(p) {
            let rec = self.players[p];
            self.with_player(p, PlayerView { picked_coins: rec.picked_coins + 1, ..rec })
        } else {
            self
        }
    }

    /// The game after `n` attempts by player `p` to pick a coin.
    pub open spec fn pick_times(self, p: int, n: nat) -> GameView
        decreases n,
    {
        if n == 0 {
            self
        } else {
            self.pick_times(p, (n - 1) as nat).pick_step(p)
        }
    }

    pub open spec fn can_unpick(self, p: int) -> bool {
        self.players[p].picked_coins > 0
    }

    /// The game after player `p` tries to put a coin back.
    pub open spec fn unpick_step(self, p: int) -> GameView {
        if self.can_unpick(p) {
            let rec = self.players[p];
            self.with_player(
                p,
                PlayerView { picked_coins: (rec.picked_coins - 1) as nat, ..rec },
            )
        } else {
            self
        }
    }

    pub open spec fn can_win(self, p: int) -> bool {
        &&& self.players[p].tricks_won < self.current_round
        &&& self.total_tricks() < self.current_round
    }

    /// The game after a trick is credited to player `p`, where allowed.
    pub open spec fn win_step(self, p: int) -> GameView {
        if self.can_win(p) {
            let rec = self.players[p];
            self.with_player(p, PlayerView { tricks_won: rec.tricks_won + 1, ..rec })
        } else {
            self
        }
    }

    pub open spec fn can_lose(self, p: int) -> bool {
        self.players[p].tricks_won > 0
    }

    /// The game after a trick is taken back from player `p`, where allowed.
    pub open spec fn lose_step(self, p: int) -> GameView {
        if self.can_lose(p) {
            let rec = self.players[p];
            self.with_player(p, PlayerView { tricks_won: (rec.tricks_won - 1) as nat, ..rec })
        } else {
            self
        }
    }

    /// Every trick of the round has been credited to someone.
    pub open spec fn can_advance(self) -> bool {
        self.total_tricks() >= self.current_round
    }

    /// The next round: every player scored, the opening seat moved on by one.
    pub open spec fn advanced(self) -> GameView {
        GameView {
            players: self.players.map_values(|rec: PlayerView| rec.scored()),
            current_round: self.current_round + 1,
            starting_player: (self.starting_player + 1) % self.players.len(),
        }
    }

    /// The game after an attempt to close the round.
    pub open spec fn advance_step(self) -> GameView {
        if self.can_advance() {
            self.advanced()
        } else {
            self
        }
    }

    /// Scoring the round keeps every player's points within `i8`, and the
    /// next round number fits in `u8`.
    pub open spec fn can_score(self) -> bool {
        &&& self.current_round < u8::MAX
        &&& forall|i: int| 0 <= i < self.players.len() ==> (#[trigger] self.players[i]).score_fits()
    }
}

/// The state of one game: its players in seating order, the round being
/// played and the seat that opens it.
pub struct Game {
    players: Vec<Player>,
    current_round: u8,
    starting_player: u8,
}

impl View for Game {
    type V = GameView;

    closed spec fn view(&self) -> GameView {
        GameView {
            players: self.players@.map_values(|p: Player| p@),
            current_round: self.current_round as nat,
            starting_player: self.starting_player as nat,
        }
    }
}

/// Relies on rand's `rand::rng()` and `Rng::random_range`: a value drawn
/// from a non-empty range `0..bound` lies in that range.
#[verifier::external_body]
fn random_below(bound: u8) -> (r: u8)
    requires
        bound > 0,
    ensures
        r < bound,
{
    rand::Rng::random_range(&mut rand::rng(), 0..bound)
}

impl Game {
    /// Every game built by this library satisfies the invariant of its view.
    pub open spec fn wf(&self) -> bool {
        self@.wf()
    }

    /// Creates a game of `player_count` fresh players in round one, the
    /// opening seat drawn at random.
    pub fn new(player_count: u8) -> (r: Game)
        requires
            MIN_PLAYERS <= player_count <= MAX_PLAYERS,
        ensures
            r.wf(),
            r@.started(player_count as nat),
            r@.total_tricks() == 0,
    {
        let starting_player = random_below(player_count);
        Game::with_starting_player(player_count, starting_player)
    }

    /// Creates a game of `player_count` fresh players in round one, opened
    /// by seat `starting_player`.
    pub fn with_starting_player(player_count: u8, starting_player: u8) -> (r: Game)
        requires
            MIN_PLAYERS <= player_count <= MAX_PLAYERS,
            starting_player < player_count,
        ensures
            r.wf(),
            r@.started(player_count as nat),
            r@.starting_player == starting_player,
            r@.total_tricks() == 0,
    {
        let mut players: Vec<Player> = Vec::new();
        let mut i: u8 = 0;
        while i < player_count
            invariant
                i <= player_count,
                players@.len() == i,
                forall|j: int| 0 <= j < i ==> (#[trigger] players@[j])@ == PlayerView::fresh(),
            decreases player_count - i,
        {
            players.push(Player::new());
            i += 1;
        }
        let r = Game { players, current_round: 1, starting_player };
        proof {
            lemma_no_tricks_total(r@.players);
        }
        r
    }

    /// Replaces the record of player `p`.
    fn store(&mut self, p: usize, rec: Player)
        requires
            p < old(self).players@.len(),
        ensures
            final(self).players@.len() == old(self).players@.len(),
            final(self)@ == old(self)@.with_player(p as int, rec@),
    {
        self.players.set(p, rec);
        proof {
            assert(self@.players =~= old(self)@.players.update(p as int, rec@));
        }
    }

    /// Picks a coin for `player`; refused, with nothing changed, once the
    /// player holds as many coins as the round number.
    pub fn pick_coin(&mut self, player: usize) -> (r: bool)
        requires
            old(self).wf(),
            player < old(self)@.players.len(),
        ensures
            final(self).wf(),
            r == old(self)@.can_pick(player as int),
            final(self)@ == old(self)@.pick_step(player as int),
    {
        let mut rec = self.players[player];
        if rec.picked_coins >= self.current_round {
            return false;
        }
        rec.picked_coins += 1;
        self.store(player, rec);
        proof {
            lemma_total_update(old(self)@.players, player as int, rec@);
        }
        true
    }

    /// Puts back one of `player`'s coins; refused, with nothing changed,
    /// when the player holds none.
    pub fn unpick_coin(&mut self, player: usize) -> (r: bool)
        requires
            old(self).wf(),
            player < old(self)@.players.len(),
        ensures
            final(self).wf(),
            r == old(self)@.can_unpick(player as int),
            final(self)@ == old(self)@.unpick_step(player as int),
    {
        let mut rec = self.players[player];
        if rec.picked_coins == 0 {
            return false;
        }
        rec.picked_coins -= 1;
        self.store(player, rec);
        proof {
            lemma_total_update(old(self)@.players, player as int, rec@);
        }
        true
    }

    /// Credits `player` with a trick; refused, with nothing changed, when
    /// the player or the whole table has already won as many tricks as the
    /// round number.
    pub fn won_trick(&mut self, player: usize) -> (r: bool)
        requires
            old(self).wf(),
            player < old(self)@.players.len(),
        ensures
            final(self).wf(),
            r == old(self)@.can_win(player as int),
            final(self)@ == old(self)@.win_step(player as int),
    {
        let total = self.get_total_tricks_won();
        let mut rec = self.players[player];
        if rec.tricks_won >= self.current_round || total >= self.current_round {
            return false;
        }
        rec.tricks_won += 1;
        self.store(player, rec);
        proof {
            lemma_total_update(old(self)@.players, player as int, rec@);
        }
        true
    }

    /// Takes a trick back from `player`; refused, with nothing changed,
    /// when the player has won none.
    pub fn lost_trick(&mut self, player: usize) -> (r: bool)
        requires
            old(self).wf(),
            player < old(self)@.players.len(),
        ensures
            final(self).wf(),
            r == old(self)@.can_lose(player as int),
            final(self)@ == old(self)@.lose_step(player as int),
    {
        let mut rec = self.players[player];
        if rec.tricks_won == 0 {
            return false;
        }
        rec.tricks_won -= 1;
        self.store(player, rec);
        proof {
            lemma_total_update(old(self)@.players, player as int, rec@);
        }
        true
    }

    /// Scores the round for every player and moves on to the next round
    /// and the next opening seat; refused, with nothing changed, while
    /// fewer tricks than the round number have been won.
    pub fn next_round(&mut self) -> (r: bool)
        requires
            old(self).wf(),
            old(self)@.can_score(),
        ensures
            final(self).wf(),
            r == old(self)@.can_advance(),
            final(self)@ == old(self)@.advance_step(),
            r ==> final(self)@.current_round == old(self)@.current_round + 1,
            r ==> final(self)@.starting_player == (old(self)@.starting_player + 1)
                % old(self)@.players.len(),
            r ==> forall|i: int|
                0 <= i < old(self)@.players.len() ==> {
                    &&& (#[trigger] final(self)@.players[i]).picked_coins == 0
                    &&& final(self)@.players[i].tricks_won == 0
                    &&& final(self)@.players[i].points == old(self)@.players[i].points
                        + round_score(
                        old(self)@.players[i].picked_coins as int,
                        old(self)@.players[i].tricks_won as int,
                    )
                },
    {
        let total = self.get_total_tricks_won();
        if total < self.current_round {
            return false;
        }
        let ghost before = self@;
        let n = self.players.len();
        let mut i: usize = 0;
        while i < n
            invariant
                i <= n,
                n == before.players.len(),
                self.players@.len() == n,
                self.current_round == before.current_round,
                self.starting_player == before.starting_player,
                before.wf(),
                before.can_score(),
                forall|j: int| 0 <= j < i ==> self@.players[j] == before.players[j].scored(),
                forall|j: int| i <= j < n ==> self@.players[j] == before.players[j],
            decreases n - i,
        {
            let mut rec = self.players[i];
            assert(before.players[i as int].score_fits());
            rec.next_round();
            self.store(i, rec);
            i += 1;
        }
        proof {
            assert(self@.players =~= before.players.map_values(|rec: PlayerView| rec.scored()));
            lemma_no_tricks_total(self@.players);
        }
        self.starting_player = (self.starting_player + 1) % (n as u8);
        self.current_round += 1;
        true
    }

    /// Total number of tricks won at the table this round.
    pub fn get_total_tricks_won(&self) -> (r: u8)
        requires
            self.wf(),
        ensures
            r == self@.total_tricks(),
    {
        let ghost players = self@.players;
        let mut sum: u16 = 0;
        let mut i: usize = 0;
        while i < self.players.len()
            invariant
                i <= self.players@.len(),
                self.wf(),
                players == self@.players,
                sum == tricks_total(players.subrange(0, i as int)),
                sum <= 255 * i,
            decreases self.players@.len() - i,
        {
            assert(players.subrange(0, i + 1).drop_last() =~= players.subrange(0, i as int));
            sum += self.players[i].tricks_won as u16;
            i += 1;
        }
        assert(players.subrange(0, i as int) =~= players);
        sum as u8
    }

    /// Tricks won by `player` this round.
    pub fn get_tricks_won(&self, player: usize) -> (r: u8)
        requires
            player < self@.players.len(),
        ensures
            r == self@.players[player as int].tricks_won,
    {
        self.players[player].tricks_won
    }

    /// Coins picked by `player` this round.
    pub fn get_picked_coins(&self, player: usize) -> (r: u8)
        requires
            player < self@.players.len(),
        ensures
            r == self@.players[player as int].picked_coins,
    {
        self.players[player].picked_coins
    }

    /// Points gathered by `player` over the finished rounds.
    pub fn get_points(&self, player: usize) -> (r: i8)
        requires
            player < self@.players.len(),
        ensures
            r == self@.players[player as int].points,
    {
        self.players[player].points
    }

    /// The round being played, counted from one.
    pub fn get_current_round(&self) -> (r: u8)
        ensures
            r == self@.current_round,
    {
        self.current_round
    }

    /// The seat that opens the current round.
    pub fn get_starting_player(&self) -> (r: u8)
        ensures
            r == self@.starting_player,
    {
        self.starting_player
    }

    /// Number of players seated.
    pub fn get_player_count(&self) -> (r: u8)
        requires
            self.wf(),
        ensures
            r == self@.players.len(),
    {
        self.players.len() as u8
    }
}

/// Replacing one record changes the total by the change in its tricks.
proof fn lemma_total_update(players: Seq<PlayerView>, i: int, rec: PlayerView)
    requires
        0 <= i < players.len(),
    ensures
        tricks_total(players.update(i, rec)) + players[i].tricks_won == tricks_total(players)
            + rec.tricks_won,
    decreases players.len(),
{
    let upd = players.update(i, rec);
    if i == players.len() - 1 {
        assert(upd.drop_last() =~= players.drop_last());
    } else {
        assert(upd.drop_last() =~= players.drop_last().update(i, rec));
        lemma_total_update(players.drop_last(), i, rec);
    }
}

/// A seating in which nobody has won a trick has a total of zero.
proof fn lemma_no_tricks_total(players: Seq<PlayerView>)
    requires
        forall|i: int| 0 <= i < players.len() ==> (#[trigger] players[i]).tricks_won == 0,
    ensures
        tricks_total(players) == 0,
    decreases players.len(),
{
    if players.len() > 0 {
        lemma_no_tricks_total(players.drop_last());
    }
}

/// After `k` successful picks player `p` holds `k` more coins, all else unchanged.
proof fn lemma_pick_times(g: GameView, p: int, k: nat)
    requires
        g.wf(),
        0 <= p < g.players.len(),
        g.players[p].picked_coins + k <= g.current_round,
    ensures
        g.pick_times(p, k) == g.with_player(
            p,
            PlayerView { picked_coins: g.players[p].picked_coins + k, ..g.players[p] },
        ),
    decreases k,
{
    if k == 0 {
        assert(g.with_player(p, g.players[p]).players =~= g.players);
    } else {
        lemma_pick_times(g, p, (k - 1) as nat);
        let prev = g.pick_times(p, (k - 1) as nat);
        assert(prev.can_pick(p));
        assert(prev.pick_step(p).players =~= g.with_player(
            p,
            PlayerView { picked_coins: g.players[p].picked_coins + k, ..g.players[p] },
        ).players);
    }
}

/// Player `p` can pick coins until holding as many as the round number:
/// every pick before that succeeds, the next one is refused. In particular,
/// from no coins, `current_round` picks succeed and the one after fails.
pub proof fn lemma_pick_limit(g: GameView, p: int)
    requires
        g.wf(),
        0 <= p < g.players.len(),
    ensures
        forall|k: nat|
            k < g.current_round - g.players[p].picked_coins ==> #[trigger] g.pick_times(
                p,
                k,
            ).can_pick(p),
        !g.pick_times(p, (g.current_round - g.players[p].picked_coins) as nat).can_pick(p),
        g.pick_times(p, (g.current_round - g.players[p].picked_coins) as nat).players[p].picked_coins
            == g.current_round,
{
    assert forall|k: nat| k < g.current_round - g.players[p].picked_coins implies #[trigger] g.pick_times(
        p,
        k,
    ).can_pick(p) by {
        lemma_pick_times(g, p, k);
    }
    lemma_pick_times(g, p, (g.current_round - g.players[p].picked_coins) as nat);
}

/// Putting a coin back exactly undoes a pick that succeeded.
pub proof fn lemma_unpick_undoes_pick(g: GameView, p: int)
    requires
        g.wf(),
        0 <= p < g.players.len(),
        g.can_pick(p),
    ensures
        g.pick_step(p).can_unpick(p),
        g.pick_step(p).unpick_step(p) == g,
{
    assert(g.pick_step(p).unpick_step(p).players =~= g.players);
}

/// Once the table has won as many tricks as the round number, every
/// player's attempt to win another is refused and changes nothing.
pub proof fn lemma_trick_cap(g: GameView, q: int)
    requires
        g.wf(),
        0 <= q < g.players.len(),
        g.total_tricks() == g.current_round,
    ensures
        !g.can_win(q),
        g.win_step(q) == g,
{
}

} // verus!
