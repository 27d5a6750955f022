use baduk::BadukClassical;
use baduk::BadukMove;
use baduk::MoveError;
use baduk::Player;
use baduk::Point;
use baduk::StatelessGame;
use baduk::SupportedGames;

fn play(game: &mut BadukClassical<9>, r: usize, c: usize) {
    let res = game.make_move(BadukMove::Play { coordinates: (r, c) });
    assert!(res.is_ok(), "expected the move at ({}, {}) to be legal", r, c);
}

#[test]
fn new_game_starts_empty_with_black_to_move() {
    let game: BadukClassical<9> = BadukClassical::new();
    assert_eq!(game.turn, Player::Black);
    assert_eq!(game.captures, (0, 0));
    assert_eq!(game.ko_point, None);
    assert_eq!(game.consecutive_passes, 0);
    assert_eq!(game.position_history.len(), 1);
    assert!(!game.is_game_over());
    assert_eq!(game.board.get_point(4, 4), Some(Point::Empty));
}

#[test]
fn turns_alternate_and_stones_land() {
    let mut game: BadukClassical<9> = BadukClassical::new();
    play(&mut game, 2, 2);
    assert_eq!(game.turn, Player::White);
    assert_eq!(game.board.get_point(2, 2), Some(Point::Stone(Player::Black)));
    play(&mut game, 6, 6);
    assert_eq!(game.turn, Player::Black);
    assert_eq!(game.board.get_point(6, 6), Some(Point::Stone(Player::White)));
}

#[test]
fn move_on_occupied_point_fails_and_leaves_state_unchanged() {
    let mut game: BadukClassical<9> = BadukClassical::new();
    play(&mut game, 4, 4);
    let board_before = game.board.clone();
    let turn_before = game.turn;
    let history_before = game.position_history.len();
    let res = game.make_move(BadukMove::Play { coordinates: (4, 4) });
    assert!(matches!(res, Err(MoveError::IllegalMove)));
    assert!(game.board.grid_equals(&board_before));
    assert_eq!(game.turn, turn_before);
    assert_eq!(game.position_history.len(), history_before);
}

#[test]
fn move_out_of_range_fails() {
    let mut game: BadukClassical<9> = BadukClassical::new();
    let res = game.make_move(BadukMove::Play { coordinates: (9, 4) });
    assert!(matches!(res, Err(MoveError::IllegalMove)));
}

#[test]
fn single_stone_is_captured_and_counted() {
    let mut game: BadukClassical<9> = BadukClassical::new();
    // Black surrounds the white stone at (1,1); white plays far away.
    play(&mut game, 0, 1); // B
    play(&mut game, 1, 1); // W, the stone to be captured
    play(&mut game, 1, 0); // B
    play(&mut game, 5, 5); // W elsewhere
    play(&mut game, 1, 2); // B
    play(&mut game, 5, 6); // W elsewhere
    assert_eq!(game.board.get_point(1, 1), Some(Point::Stone(Player::White)));
    assert_eq!(game.captures, (0, 0));
    play(&mut game, 2, 1); // B completes the surround
    assert_eq!(game.board.get_point(1, 1), Some(Point::Empty));
    assert_eq!(game.captures, (1, 0));
}

#[test]
fn suicide_is_illegal() {
    let mut game: BadukClassical<9> = BadukClassical::new();
    play(&mut game, 0, 1); // B
    play(&mut game, 5, 5); // W elsewhere
    play(&mut game, 1, 0); // B
    // White at (0,0) would have no liberty and captures nothing.
    assert!(game.would_be_suicide(0, 0, Player::White));
    let res = game.make_move(BadukMove::Play { coordinates: (0, 0) });
    assert!(matches!(res, Err(MoveError::IllegalMove)));
}

#[test]
fn capturing_placement_is_not_suicide() {
    let mut game: BadukClassical<9> = BadukClassical::new();
    play(&mut game, 0, 1); // B
    play(&mut game, 0, 0); // W in the corner
    play(&mut game, 5, 5); // B elsewhere
    play(&mut game, 6, 6); // W elsewhere
    // Black at (1,0) takes the white corner stone's last liberty.
    assert!(!game.would_be_suicide(1, 0, Player::Black));
    play(&mut game, 1, 0);
    assert_eq!(game.board.get_point(0, 0), Some(Point::Empty));
    assert_eq!(game.captures, (1, 0));
}

#[test]
fn ko_point_blocks_immediate_recapture_then_frees_it() {
    let mut game: BadukClassical<9> = BadukClassical::new();
    // Classic single-stone ko around (2,2)/(2,3).
    play(&mut game, 1, 2); // B
    play(&mut game, 1, 3); // W
    play(&mut game, 2, 1); // B
    play(&mut game, 2, 4); // W
    play(&mut game, 3, 2); // B
    play(&mut game, 3, 3); // W
    play(&mut game, 2, 3); // B takes the shared point
    assert_eq!(game.ko_point, None);
    play(&mut game, 2, 2); // W captures the black stone, creating ko
    assert_eq!(game.captures, (0, 1));
    assert_eq!(game.board.get_point(2, 3), Some(Point::Empty));
    assert_eq!(game.ko_point, Some((2, 3)));
    // Black may not recapture at once.
    assert!(!game.is_legal(&BadukMove::Play { coordinates: (2, 3) }));
    // After one full exchange elsewhere the point is free again.
    play(&mut game, 7, 7); // B elsewhere clears the ko point
    play(&mut game, 6, 6); // W elsewhere
    assert_eq!(game.ko_point, None);
    assert!(game.is_legal(&BadukMove::Play { coordinates: (2, 3) }));
    play(&mut game, 2, 3); // Black recaptures; the position now differs.
    assert_eq!(game.captures, (1, 1));
}

#[test]
fn repeating_any_recorded_position_is_rejected() {
    let mut game: BadukClassical<9> = BadukClassical::new();
    game.board.place_stone(0, 0, Player::Black);
    // Record, among others, the exact position that black playing (4,4)
    // would create: it is not the latest entry.
    let mut target = game.board.clone();
    target.place_stone(4, 4, Player::Black);
    game.position_history.push(target);
    let mut other = game.board.clone();
    other.place_stone(7, 7, Player::White);
    game.position_history.push(other);
    assert!(game.would_repeat_position(4, 4, Player::Black));
    assert!(!game.is_legal(&BadukMove::Play { coordinates: (4, 4) }));
    // A placement that creates a fresh position stays legal.
    assert!(!game.would_repeat_position(5, 5, Player::Black));
    assert!(game.is_legal(&BadukMove::Play { coordinates: (5, 5) }));
}

#[test]
fn two_passes_end_the_game_and_a_placement_resets_the_run() {
    let mut game: BadukClassical<9> = BadukClassical::new();
    assert!(game.make_move(BadukMove::Pass).is_ok());
    assert_eq!(game.consecutive_passes, 1);
    assert!(!game.is_game_over());
    play(&mut game, 3, 3);
    assert_eq!(game.consecutive_passes, 0);
    assert!(game.make_move(BadukMove::Pass).is_ok());
    assert!(game.make_move(BadukMove::Pass).is_ok());
    assert_eq!(game.consecutive_passes, 2);
    assert!(game.is_game_over());
}

#[test]
fn pass_clears_the_ko_point_and_flips_the_turn() {
    let mut game: BadukClassical<9> = BadukClassical::new();
    game.ko_point = Some((4, 4));
    assert!(game.make_move(BadukMove::Pass).is_ok());
    assert_eq!(game.ko_point, None);
    assert_eq!(game.turn, Player::White);
}

#[test]
fn territory_splits_into_black_white_and_neutral() {
    let mut game: BadukClassical<9> = BadukClassical::new();
    play(&mut game, 0, 1); // B walls off the (0,0) corner
    play(&mut game, 8, 7); // W walls off the (8,8) corner
    play(&mut game, 1, 0); // B
    play(&mut game, 7, 8); // W
    let (black, white, neutral) = game.calculate_territory();
    assert_eq!(black, vec![(0, 0)]);
    assert_eq!(white, vec![(8, 8)]);
    // All other empty points form one region touching both colors.
    assert_eq!(neutral.len(), 81 - 4 - 2);
    assert!(neutral.contains(&(4, 4)));
    assert!(!neutral.contains(&(0, 0)));
}

#[test]
fn region_bordering_no_stones_is_neutral() {
    let mut game: BadukClassical<9> = BadukClassical::new();
    let (black, white, neutral) = game.calculate_territory();
    assert!(black.is_empty());
    assert!(white.is_empty());
    assert_eq!(neutral.len(), 81);
}

#[test]
fn count_stones_counts_per_color() {
    let mut game: BadukClassical<9> = BadukClassical::new();
    play(&mut game, 0, 0);
    play(&mut game, 1, 1);
    play(&mut game, 2, 2);
    assert_eq!(game.count_stones(Player::Black), 2);
    assert_eq!(game.count_stones(Player::White), 1);
}

#[test]
fn winner_is_none_before_the_game_ends() {
    let game: BadukClassical<9> = BadukClassical::new();
    assert_eq!(game.get_winner(), None);
}

#[test]
fn komi_decides_an_empty_game_for_white() {
    let mut game: BadukClassical<9> = BadukClassical::new();
    assert!(game.make_move(BadukMove::Pass).is_ok());
    assert!(game.make_move(BadukMove::Pass).is_ok());
    assert_eq!(game.get_winner(), Some(Player::White));
}

#[test]
fn large_enough_lead_beats_the_komi() {
    let mut game: BadukClassical<9> = BadukClassical::new();
    // Black takes a wall across row 1; everything behind it is black
    // territory, and white never answers on the board.
    for c in 0..9 {
        play(&mut game, 1, c); // B
        assert!(game.make_move(BadukMove::Pass).is_ok()); // W passes
    }
    assert!(game.make_move(BadukMove::Pass).is_ok()); // B passes
    assert!(game.make_move(BadukMove::Pass).is_ok()); // W passes
    assert!(game.is_game_over());
    // Black: 9 stones + 9 points of territory in row 0; the rest of the
    // board borders only black as well.
    assert_eq!(game.get_winner(), Some(Player::Black));
}

#[test]
fn list_all_legal_moves_starts_with_pass_and_scans_row_major() {
    let game: BadukClassical<9> = BadukClassical::new();
    let moves = game.list_all_legal_moves();
    assert_eq!(moves.len(), 1 + 81);
    assert_eq!(moves[0], BadukMove::Pass);
    assert_eq!(moves[1], BadukMove::Play { coordinates: (0, 0) });
    assert_eq!(moves[2], BadukMove::Play { coordinates: (0, 1) });
    assert_eq!(moves[10], BadukMove::Play { coordinates: (1, 0) });
}

#[test]
fn list_all_legal_moves_omits_illegal_points() {
    let mut game: BadukClassical<9> = BadukClassical::new();
    play(&mut game, 0, 1);
    play(&mut game, 5, 5);
    play(&mut game, 1, 0);
    // White to move: (0,0) would be suicide, and three points are taken.
    let moves = game.list_all_legal_moves();
    assert_eq!(moves.len(), 1 + 81 - 3 - 1);
    assert!(!moves.contains(&BadukMove::Play { coordinates: (0, 0) }));
    assert!(!moves.contains(&BadukMove::Play { coordinates: (0, 1) }));
    assert!(moves.contains(&BadukMove::Pass));
}

#[test]
fn generate_next_board_leaves_the_original_untouched() {
    let game: BadukClassical<9> = BadukClassical::new();
    let next = game
        .generate_next_board(&BadukMove::Play { coordinates: (3, 3) })
        .unwrap();
    assert_eq!(next.board.get_point(3, 3), Some(Point::Stone(Player::Black)));
    assert_eq!(next.turn, Player::White);
    assert_eq!(game.board.get_point(3, 3), Some(Point::Empty));
    assert_eq!(game.turn, Player::Black);
    let failed = game.generate_next_board(&BadukMove::Play { coordinates: (9, 9) });
    assert!(matches!(failed, Err(MoveError::IllegalMove)));
}

#[test]
fn remove_captured_stones_sweeps_every_dead_group() {
    let mut game: BadukClassical<9> = BadukClassical::new();
    // Two separate dead white stones: (0,0) and (0,8), each with no liberty.
    game.board.place_stone(0, 0, Player::White);
    game.board.place_stone(0, 1, Player::Black);
    game.board.place_stone(1, 0, Player::Black);
    game.board.place_stone(0, 8, Player::White);
    game.board.place_stone(0, 7, Player::Black);
    game.board.place_stone(1, 8, Player::Black);
    let captured = game.remove_captured_stones(Player::White);
    assert_eq!(captured, 2);
    assert_eq!(game.board.get_point(0, 0), Some(Point::Empty));
    assert_eq!(game.board.get_point(0, 8), Some(Point::Empty));
    assert_eq!(game.board.get_point(0, 1), Some(Point::Stone(Player::Black)));
}

#[test]
fn the_three_supported_sizes_all_play() {
    let mut classic: BadukClassical<19> = BadukClassical::new();
    assert!(classic.make_move(BadukMove::Play { coordinates: (18, 18) }).is_ok());
    let mut beginner: BadukClassical<13> = BadukClassical::new();
    assert!(beginner.make_move(BadukMove::Play { coordinates: (12, 0) }).is_ok());
    let newbie: BadukClassical<9> = BadukClassical::new();
    let games = [
        SupportedGames::BadukClassic(classic),
        SupportedGames::BadukBeginner(beginner),
        SupportedGames::BadukNewbie(newbie),
    ];
    for game in games.iter() {
        match game {
            SupportedGames::BadukClassic(g) => {
                assert_eq!(g.board.get_point(18, 18), Some(Point::Stone(Player::Black)));
            }
            SupportedGames::BadukBeginner(g) => {
                assert_eq!(g.board.get_point(12, 0), Some(Point::Stone(Player::Black)));
            }
            SupportedGames::BadukNewbie(g) => {
                assert_eq!(g.turn, Player::Black);
            }
        }
    }
}
