use coin_tricks::Game;

/// Closes the current round by crediting every trick to `winner`.
fn finish_round(game: &mut Game, winner: usize) {
    while game.get_total_tricks_won() < game.get_current_round() {
        assert!(game.won_trick(winner));
    }
    assert!(game.next_round());
}

#[test]
fn test_valid_setup() {
    let player_count = 6;
    let game = Game::new(player_count);
    assert_eq!(1, game.get_current_round());
    assert_eq!(player_count, game.get_player_count());
    for player in 0..game.get_player_count() {
        assert_eq!(0, game.get_tricks_won(player as usize));
        assert_eq!(0, game.get_picked_coins(player as usize));
        assert_eq!(0, game.get_points(player as usize));
    }
    assert_eq!(0, game.get_total_tricks_won());
}

#[test]
fn test_one_round() {
    let mut game = Game::new(6);
    assert!(game.pick_coin(0));

    assert_eq!(1, game.get_picked_coins(0));
    for player in 1..game.get_player_count() {
        assert_eq!(0, game.get_picked_coins(player as usize));
    }

    assert!(!game.next_round(), "Game should not have been able to continue to next round");

    assert!(game.won_trick(0), "Player 0 should be able to win a trick");
    assert!(!game.won_trick(1), "There should only be one trick won in this round");
    assert!(game.next_round(), "Game should have been able to continue to next round");

    for player in 0..game.get_player_count() {
        assert_eq!(0, game.get_picked_coins(player as usize), "Picked coins should have been reset");
        assert_eq!(0, game.get_tricks_won(player as usize), "Won tricks should have been reset");

        if player == 0 {
            assert_eq!(3, game.get_points(0), "Player 0 should have 3 points for correct guess and one trick");
        } else {
            assert_eq!(2, game.get_points(player as usize), "Player {player} should have 2 points for correct guess");
        }
    }
}

#[test]
fn every_valid_count_starts_clean() {
    for count in 3u8..=6 {
        let game = Game::new(count);
        assert_eq!(count, game.get_player_count());
        assert_eq!(1, game.get_current_round());
        assert_eq!(0, game.get_total_tricks_won());
        for player in 0..count as usize {
            assert_eq!(0, game.get_picked_coins(player));
            assert_eq!(0, game.get_tricks_won(player));
            assert_eq!(0, game.get_points(player));
        }
    }
}

#[test]
fn random_starting_player_is_a_seat() {
    for _ in 0..200 {
        for count in 3u8..=6 {
            let game = Game::new(count);
            assert!(game.get_starting_player() < count);
        }
    }
}

#[test]
fn chosen_starting_player_is_kept() {
    let game = Game::with_starting_player(4, 3);
    assert_eq!(3, game.get_starting_player());
    assert_eq!(4, game.get_player_count());
    assert_eq!(1, game.get_current_round());
}

#[test]
fn picks_are_capped_by_the_round() {
    let mut game = Game::with_starting_player(3, 0);
    assert!(game.pick_coin(2));
    assert!(!game.pick_coin(2));
    assert_eq!(1, game.get_picked_coins(2));
    finish_round(&mut game, 0);
    assert_eq!(2, game.get_current_round());
    for _ in 0..2 {
        assert!(game.pick_coin(1));
    }
    assert!(!game.pick_coin(1));
    assert_eq!(2, game.get_picked_coins(1));
}

#[test]
fn unpick_reverses_one_pick() {
    let mut game = Game::with_starting_player(3, 0);
    assert!(!game.unpick_coin(0));
    assert_eq!(0, game.get_picked_coins(0));
    assert!(game.pick_coin(0));
    assert!(game.unpick_coin(0));
    assert_eq!(0, game.get_picked_coins(0));
    assert!(!game.unpick_coin(0));
}

#[test]
fn table_trick_cap_applies_to_every_player() {
    let mut game = Game::with_starting_player(5, 0);
    finish_round(&mut game, 0);
    assert!(game.won_trick(3));
    assert!(game.won_trick(4));
    assert_eq!(2, game.get_total_tricks_won());
    for player in 0..5 {
        assert!(!game.won_trick(player));
        assert_eq!(if player >= 3 { 1 } else { 0 }, game.get_tricks_won(player));
    }
    assert_eq!(2, game.get_total_tricks_won());
}

#[test]
fn lost_trick_reverses_a_win() {
    let mut game = Game::with_starting_player(3, 0);
    assert!(!game.lost_trick(1));
    assert!(game.won_trick(1));
    assert_eq!(1, game.get_total_tricks_won());
    assert!(game.lost_trick(1));
    assert_eq!(0, game.get_tricks_won(1));
    assert_eq!(0, game.get_total_tricks_won());
    assert!(game.won_trick(2));
}

#[test]
fn refused_round_change_keeps_state() {
    let mut game = Game::with_starting_player(4, 1);
    finish_round(&mut game, 0);
    assert!(game.pick_coin(3));
    assert!(game.won_trick(3));
    assert!(!game.next_round());
    assert_eq!(2, game.get_current_round());
    assert_eq!(2, game.get_starting_player());
    assert_eq!(1, game.get_picked_coins(3));
    assert_eq!(1, game.get_tricks_won(3));
    assert_eq!(2, game.get_points(3));
}

#[test]
fn starting_player_wraps_around() {
    let mut game = Game::with_starting_player(3, 1);
    finish_round(&mut game, 0);
    assert_eq!(2, game.get_starting_player());
    finish_round(&mut game, 0);
    assert_eq!(0, game.get_starting_player());
    assert_eq!(3, game.get_current_round());
}

#[test]
fn missed_bids_lose_the_size_of_the_miss() {
    let mut game = Game::with_starting_player(4, 0);
    finish_round(&mut game, 0);
    // Round two: player 0 bids 0 and wins 2, player 1 bids 2 and wins 0,
    // player 2 bids 1 and wins 0, player 3 bids 0 and wins 0.
    assert!(game.pick_coin(1));
    assert!(game.pick_coin(1));
    assert!(game.pick_coin(2));
    assert!(game.won_trick(0));
    assert!(game.won_trick(0));
    assert!(game.next_round());
    // Round one gave player 0 a delta of 1 - 1 = 0 and everyone else 2.
    assert_eq!(0, game.get_points(0));
    assert_eq!(2 - 2, game.get_points(1));
    assert_eq!(2 - 1, game.get_points(2));
    assert_eq!(2 + 2, game.get_points(3));
}

#[test]
fn partly_met_bid_scores_tricks_less_miss() {
    let mut game = Game::with_starting_player(3, 0);
    finish_round(&mut game, 1);
    finish_round(&mut game, 1);
    // Round three: player 0 bids 1 and wins 3.
    assert!(game.pick_coin(0));
    for _ in 0..3 {
        assert!(game.won_trick(0));
    }
    assert!(game.next_round());
    // Player 0 scored 2 in each earlier round, then 3 - (3 - 1) = 1.
    assert_eq!(5, game.get_points(0));
    // Player 1 scored 1 - 1 = 0, then 2 - 2 = 0, then an exact 0 + 2.
    assert_eq!(2, game.get_points(1));
    assert_eq!(6, game.get_points(2));
    assert_eq!(4, game.get_current_round());
}
