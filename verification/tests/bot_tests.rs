use baduk::BadukClassical;
use baduk::BadukMove;
use baduk::GameBot;
use baduk::RandomBot;
use baduk::StatelessGame;

#[test]
fn select_move_returns_a_listed_legal_move() {
    let mut game: BadukClassical<9> = BadukClassical::new();
    let bot: RandomBot<BadukClassical<9>> = RandomBot::new();
    for _ in 0..30 {
        let legal = game.list_all_legal_moves();
        let chosen = bot.select_move(&game).unwrap();
        assert!(legal.contains(&chosen));
        assert!(game.is_legal(&chosen));
        assert!(game.make_move(chosen).is_ok());
    }
}

#[test]
fn select_move_still_returns_pass_without_placements() {
    // On a single-point board the only placement is suicide, so pass is the
    // one legal move.
    let game: BadukClassical<1> = BadukClassical::new();
    let legal = game.list_all_legal_moves();
    assert_eq!(legal.len(), 1);
    assert_eq!(legal[0], BadukMove::Pass);
    let bot: RandomBot<BadukClassical<1>> = RandomBot::new();
    for _ in 0..5 {
        assert_eq!(bot.select_move(&game).unwrap(), BadukMove::Pass);
    }
}

#[test]
fn selected_moves_drive_a_game_to_its_end() {
    let mut game: BadukClassical<3> = BadukClassical::new();
    let bot: RandomBot<BadukClassical<3>> = RandomBot::new();
    let mut steps = 0;
    while !game.is_game_over() && steps < 300 {
        let chosen = bot.select_move(&game).unwrap();
        assert!(game.make_move(chosen).is_ok());
        steps += 1;
    }
    // Captures only ever grow, and both counters stay sane.
    let (black_caps, white_caps) = game.captures;
    assert!(black_caps + white_caps <= game.position_history.len());
}
