use minesweeper::client::{Board, Cell, ClientGame, ReplyError, State, Status};
use minesweeper::protocol::ServerMsg;

#[test]
fn state_display() {
    assert!(State::Playing.should_display());
    assert!(State::Lost.should_display());
    assert!(State::Won.should_display());
    assert!(!State::Idle.should_display());
}

#[test]
fn status_display() {
    assert!(Status::Playing.should_display());
    assert!(Status::Lost.should_display());
    assert!(Status::Won.should_display());
    assert!(!Status::Idle.should_display());
    assert!(!Status::Connecting.should_display());
    assert!(!Status::FailedToConnect.should_display());
}

#[test]
fn new_board_is_hidden_and_unflagged() {
    let b = Board::new((3, 2));
    assert_eq!(b.dim, (3, 2));
    assert_eq!(b.cells, vec![Cell::Hidden(false); 6]);
}

#[test]
fn reveal_cells_applies_only_proximities() {
    let mut b = Board::new((2, 2));
    b.flag_cell(3);
    b.reveal_cells(&vec![9, 1, 0, 9]);
    assert_eq!(b.cells, vec![Cell::Hidden(false), Cell::Revealed(1), Cell::Revealed(0), Cell::Hidden(true)]);
    b.reveal_cells(&vec![255, 9, 9, 8]);
    assert_eq!(b.cells[0], Cell::Hidden(false));
    assert_eq!(b.cells[3], Cell::Revealed(8));
}

#[test]
fn flag_toggles_hidden_cells_only() {
    let mut b = Board::new((2, 1));
    b.flag_cell(0);
    assert_eq!(b.cells[0], Cell::Hidden(true));
    b.flag_cell(0);
    assert_eq!(b.cells[0], Cell::Hidden(false));
    b.reveal_cells(&vec![9, 2]);
    b.flag_cell(1);
    assert_eq!(b.cells[1], Cell::Revealed(2));
}

#[test]
fn hidden_cells_become_mines() {
    let mut b = Board::new((3, 1));
    b.reveal_cells(&vec![1, 9, 9]);
    b.flag_cell(2);
    b.reveal_all_as_mines();
    assert_eq!(b.cells, vec![Cell::Revealed(1), Cell::Mine, Cell::Mine]);
}

#[test]
fn listed_mines_explode() {
    let mut b = Board::new((2, 2));
    b.show_mines(&vec![3, 0]);
    assert_eq!(
        b.cells,
        vec![Cell::MineExploded, Cell::Hidden(false), Cell::Hidden(false), Cell::MineExploded]
    );
}

#[test]
fn game_follows_the_server_replies() {
    let mut g = ClientGame::new();
    assert_eq!(g.state, State::Idle);
    assert_eq!(g.error_code, 200);
    assert!(!g.can_reveal());
    g.start_game((2, 2), &ServerMsg::Error(102));
    assert!(g.board.is_none());
    g.start_game((2, 2), &ServerMsg::Accepted());
    assert_eq!(g.state, State::Playing);
    assert!(g.can_reveal());
    assert_eq!(g.apply_reveal_reply(&ServerMsg::RevealCells(vec![1, 9, 9, 9])), Ok(()));
    assert_eq!(g.board.as_ref().unwrap().cells[0], Cell::Revealed(1));
    assert_eq!(g.apply_reveal_reply(&ServerMsg::Error(101)), Ok(()));
    assert_eq!(g.error_code, 101);
    assert_eq!(g.apply_reveal_reply(&ServerMsg::GameWin(vec![9, 1, 1, 9])), Ok(()));
    assert_eq!(g.state, State::Won);
    assert_eq!(
        g.board.as_ref().unwrap().cells,
        vec![Cell::Revealed(1), Cell::Revealed(1), Cell::Revealed(1), Cell::Mine]
    );
    g.end_game(&ServerMsg::Accepted());
    assert_eq!(g.state, State::Idle);
    assert!(g.board.is_none());
}

#[test]
fn loss_reply_shows_the_mines() {
    let mut g = ClientGame::new();
    g.start_game((2, 2), &ServerMsg::Accepted());
    assert_eq!(g.apply_reveal_reply(&ServerMsg::GameLoss(vec![2])), Ok(()));
    assert_eq!(g.state, State::Lost);
    assert_eq!(g.board.as_ref().unwrap().cells[2], Cell::MineExploded);
    assert!(!g.can_reveal());
}

#[test]
fn malformed_replies_change_nothing() {
    let mut g = ClientGame::new();
    g.start_game((2, 2), &ServerMsg::Accepted());
    assert_eq!(g.apply_reveal_reply(&ServerMsg::RevealCells(vec![1])), Err(ReplyError::Malformed));
    assert_eq!(g.apply_reveal_reply(&ServerMsg::GameWin(vec![1; 5])), Err(ReplyError::Malformed));
    assert_eq!(g.apply_reveal_reply(&ServerMsg::GameLoss(vec![4])), Err(ReplyError::Malformed));
    assert_eq!(g.apply_reveal_reply(&ServerMsg::Accepted()), Err(ReplyError::Unexpected));
    assert_eq!(g.state, State::Playing);
    assert_eq!(g.board.as_ref().unwrap().cells, vec![Cell::Hidden(false); 4]);
}

#[test]
fn flags_only_while_playing() {
    let mut g = ClientGame::new();
    g.start_game((2, 1), &ServerMsg::Accepted());
    g.flag_cell(1);
    assert_eq!(g.board.as_ref().unwrap().cells[1], Cell::Hidden(true));
    g.apply_reveal_reply(&ServerMsg::GameLoss(vec![0])).unwrap();
    g.flag_cell(1);
    assert_eq!(g.board.as_ref().unwrap().cells[1], Cell::Hidden(true));
}
