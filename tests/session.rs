use minesweeper::board::BoardInstance;
use minesweeper::protocol::{ClientMsg, ServerMsg};
use minesweeper::session::{
    elapsed_string, ClientHandler, State, GAME_ACTIVE, GAME_OVER, INVALID_BOARD, NO_GAME,
    OUT_OF_RANGE,
};

/// A session playing on a board with mines at the given positions.
fn playing(w: usize, h: usize, mines: &[usize]) -> ClientHandler {
    let mut s = ClientHandler::new();
    s.board = Some(BoardInstance::with_mines(&(w, h), &mines.to_vec()).unwrap());
    s.state = State::Playing;
    s
}

#[test]
fn new_game_while_a_board_is_active_is_refused() {
    let mut s = ClientHandler::new();
    assert_eq!(s.new_game(5, 5, 3), ServerMsg::Accepted());
    s.reveal_index(0);
    let cells_before: Vec<(u8, bool)> =
        s.board.as_ref().unwrap().cells.iter().map(|c| (c.proximity, c.hidden)).collect();
    let revealed_before = s.board.as_ref().unwrap().revealed_count;
    assert_eq!(s.new_game(4, 4, 2), ServerMsg::Error(GAME_ACTIVE));
    let b = s.board.as_ref().unwrap();
    assert_eq!(b.dim, (5, 5));
    assert_eq!(b.mine_count, 3);
    assert_eq!(b.revealed_count, revealed_before);
    let cells_after: Vec<(u8, bool)> = b.cells.iter().map(|c| (c.proximity, c.hidden)).collect();
    assert_eq!(cells_after, cells_before);
}

#[test]
fn new_game_rejects_boards_without_a_safe_cell() {
    let mut s = ClientHandler::new();
    assert_eq!(s.new_game(2, 2, 4), ServerMsg::Error(INVALID_BOARD));
    assert_eq!(s.new_game(0, 3, 0), ServerMsg::Error(INVALID_BOARD));
    assert!(s.board.is_none());
    assert_eq!(s.state, State::Idle);
    assert_eq!(s.new_game(2, 2, 3), ServerMsg::Accepted());
    assert_eq!(s.state, State::Playing);
}

#[test]
fn two_by_two_board_is_won_after_the_third_safe_cell() {
    for mine in 0..4usize {
        let safe: Vec<usize> = (0..4).filter(|&i| i != mine).collect();
        let mut s = playing(2, 2, &[mine]);
        let mut values = vec![9u8; 4];
        values[safe[0]] = 1;
        assert_eq!(s.reveal_index(safe[0]), ServerMsg::RevealCells(values));
        assert_eq!(s.state, State::Playing);
        s.reveal_index(safe[1]);
        assert_eq!(s.state, State::Playing);
        let mut last = vec![9u8; 4];
        last[safe[2]] = 1;
        assert_eq!(s.reveal_index(safe[2]), ServerMsg::GameWin(last));
        assert_eq!(s.state, State::Won);
    }
}

#[test]
fn revealing_a_mine_loses_and_lists_every_mine() {
    let mut s = playing(4, 4, &[2, 7, 13]);
    assert_eq!(s.reveal_index(7), ServerMsg::GameLoss(vec![2, 7, 13]));
    assert_eq!(s.state, State::Lost);
    let mut r = ClientHandler::new();
    r.new_game(6, 5, 9);
    let mine = r.board.as_ref().unwrap().get_bomb_positions()[0] as usize;
    match r.reveal_index(mine) {
        ServerMsg::GameLoss(v) => assert_eq!(v.len(), 9),
        other => panic!("expected a loss, got {:?}", other),
    }
}

#[test]
fn three_by_three_cascade_wins_at_once() {
    let mut s = playing(3, 3, &[8]);
    assert_eq!(s.reveal_index(0), ServerMsg::GameWin(vec![0, 0, 0, 0, 1, 1, 0, 1, 9]));
    assert_eq!(s.state, State::Won);
}

#[test]
fn reveal_errors() {
    let mut s = ClientHandler::new();
    assert_eq!(s.reveal_index(0), ServerMsg::Error(NO_GAME));
    let mut p = playing(3, 3, &[4]);
    assert_eq!(p.reveal_index(9), ServerMsg::Error(OUT_OF_RANGE));
    assert_eq!(p.state, State::Playing);
    p.reveal_index(4);
    assert_eq!(p.state, State::Lost);
    assert_eq!(p.reveal_index(0), ServerMsg::Error(GAME_OVER));
}

#[test]
fn revealing_a_revealed_cell_sends_only_nines() {
    let mut s = playing(3, 3, &[0]);
    s.reveal_index(1);
    assert_eq!(s.reveal_index(1), ServerMsg::RevealCells(vec![9; 9]));
    assert_eq!(s.state, State::Playing);
}

#[test]
fn set_version_and_close_game_reset_the_session() {
    let mut s = playing(3, 3, &[0]);
    assert_eq!(s.set_version(2), ServerMsg::Accepted());
    assert_eq!(s.version, 2);
    assert!(s.board.is_none());
    assert_eq!(s.state, State::Idle);
    let mut t = playing(3, 3, &[0]);
    t.reveal_index(0);
    assert_eq!(t.close_game(), ServerMsg::Accepted());
    assert!(t.board.is_none());
    assert_eq!(t.state, State::Idle);
    assert_eq!(t.new_game(3, 3, 1), ServerMsg::Accepted());
}

#[test]
fn dispatch_answers_each_request() {
    let mut s = ClientHandler::new();
    assert_eq!(s.dispatch(ClientMsg::SetVersion(2), 0), Some(ServerMsg::Accepted()));
    assert_eq!(s.dispatch(ClientMsg::NewGame(4, 4, 3), 1_000), Some(ServerMsg::Accepted()));
    assert_eq!(s.started_at, 1_000);
    assert_eq!(
        s.dispatch(ClientMsg::NewGame(4, 4, 3), 2_000),
        Some(ServerMsg::Error(GAME_ACTIVE))
    );
    assert_eq!(s.started_at, 1_000);
    assert_eq!(
        s.dispatch(ClientMsg::GetTime(), 13_034),
        Some(ServerMsg::Time("12.034s".to_string()))
    );
    assert_eq!(s.state, State::Playing);
    assert_eq!(s.dispatch(ClientMsg::Reveal(16), 14_000), Some(ServerMsg::Error(OUT_OF_RANGE)));
    assert_eq!(s.dispatch(ClientMsg::CloseGame(), 15_000), Some(ServerMsg::Accepted()));
    assert_eq!(s.state, State::Idle);
    assert_eq!(s.dispatch(ClientMsg::Error(5), 16_000), None);
}

#[test]
fn elapsed_time_text() {
    assert_eq!(elapsed_string(0), "0.000s");
    assert_eq!(elapsed_string(12_034), "12.034s");
    assert_eq!(elapsed_string(999), "0.999s");
    assert_eq!(elapsed_string(3_600_000), "3600.000s");
    assert_eq!(elapsed_string(u64::MAX), "18446744073709551.615s");
}

#[test]
fn start_time_is_kept_by_other_requests() {
    let mut s = ClientHandler::new();
    s.dispatch(ClientMsg::NewGame(3, 3, 1), 500);
    assert_eq!(s.started_at, 500);
    s.dispatch(ClientMsg::Reveal(0), 900);
    s.dispatch(ClientMsg::GetTime(), 1_000);
    s.dispatch(ClientMsg::Reveal(99), 1_100);
    assert_eq!(s.started_at, 500);
    assert_eq!(s.dispatch(ClientMsg::GetTime(), 2_500), Some(ServerMsg::Time("2.000s".to_string())));
}
