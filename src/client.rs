//! The client's view of a game: what each cell shows, and how the server's
//! replies update it.
use vstd::prelude::*;

use crate::protocol::ServerMsg;

verus! {

/// What the client shows for one cell.
#[derive(Clone, Copy, Debug, PartialEq, Eq, Structural)]
pub enum Cell {
    /// Revealed, with the number of mines around it.
    Revealed(u8),
    /// Hidden; `true` where the player flagged it.
    Hidden(bool),
    Mine,
    MineExploded,
}

/// The state of the client's game.
#[derive(Clone, Copy, Debug, PartialEq, Eq, Structural)]
pub enum State {
    Playing,
    Idle,
    Lost,
    Won,
}

impl State {
    /// Whether there is a board to show.
    pub fn should_display(&self) -> (r: bool)
        ensures
            r == (*self != State::Idle),
    {
        match self {
            State::Playing | State::Lost | State::Won => true,
            _ => false,
        }
    }
}

/// The state shown by the graphical front end, which also covers the
/// connection.
#[derive(Clone, Copy, Debug, PartialEq, Eq, Structural)]
pub enum Status {
    Connecting,
    FailedToConnect,
    Playing,
    Lost,
    Won,
    Idle,
}

impl Status {
    /// Whether there is a board to show.
    pub fn should_display(&self) -> (r: bool)
        ensures
            r == (*self == Status::Playing || *self == Status::Lost || *self == Status::Won),
    {
        match self {
            Status::Playing | Status::Lost | Status::Won => true,
            _ => false,
        }
    }
}

/// The client's board: `dim.0 * dim.1` cells in row-major order.
pub struct Board {
    pub dim: (usize, usize),
    pub cells: Vec<Cell>,
}

/// The cells after applying the server's values: a proximity (0 to 8)
/// reveals its cell, any other value leaves it as it was.
pub open spec fn apply_values(cells: Seq<Cell>, values: Seq<u8>) -> Seq<Cell> {
    Seq::new(
        cells.len(),
        |i: int|
            if values[i] <= 8 {
                Cell::Revealed(values[i])
            } else {
                cells[i]
            },
    )
}

/// The cells with every hidden one shown as a mine.
pub open spec fn hidden_as_mines(cells: Seq<Cell>) -> Seq<Cell> {
    Seq::new(
        cells.len(),
        |i: int|
            if cells[i] is Hidden {
                Cell::Mine
            } else {
                cells[i]
            },
    )
}

/// Index `i` is one of `mines`.
pub open spec fn listed(mines: Seq<u16>, i: int) -> bool {
    exists|k: int| 0 <= k < mines.len() && mines[k] as int == i
}

/// The cells with each listed one shown as an exploded mine.
pub open spec fn mines_exploded(cells: Seq<Cell>, mines: Seq<u16>) -> Seq<Cell> {
    Seq::new(
        cells.len(),
        |i: int|
            if listed(mines, i) {
                Cell::MineExploded
            } else {
                cells[i]
            },
    )
}

impl Board {
    /// A board of `dim.0 * dim.1` hidden, unflagged cells.
    pub fn new(dim: (usize, usize)) -> (r: Board)
        requires
            dim.0 * dim.1 <= usize::MAX,
        ensures
            r.dim == dim,
            r.cells@ == Seq::new((dim.0 * dim.1) as nat, |i: int| Cell::Hidden(false)),
    {
        let n = dim.0 * dim.1;
        let mut cells: Vec<Cell> = Vec::new();
        let mut i: usize = 0;
        while i < n
            invariant
                i <= n,
                cells@ == Seq::new(i as nat, |t: int| Cell::Hidden(false)),
            decreases n - i,
        {
            cells.push(Cell::Hidden(false));
            i += 1;
            proof {
                assert(cells@ =~= Seq::new(i as nat, |t: int| Cell::Hidden(false)));
            }
        }
        Board { dim, cells }
    }

    /// Reveals each cell whose value is a proximity (0 to 8); the others
    /// stay as they are.
    pub fn reveal_cells(&mut self, cells: &Vec<u8>)
        requires
            cells@.len() == old(self).cells@.len(),
        ensures
            final(self).dim == old(self).dim,
            final(self).cells@ == apply_values(old(self).cells@, cells@),
    {
        let ghost start = self.cells@;
        let mut i: usize = 0;
        while i < cells.len()
            invariant
                i <= cells@.len(),
                cells@.len() == start.len(),
                self.cells@.len() == start.len(),
                self.dim == old(self).dim,
                start == old(self).cells@,
                forall|t: int|
                    0 <= t < start.len() ==> #[trigger] self.cells@[t] == if t < i {
                        apply_values(start, cells@)[t]
                    } else {
                        start[t]
                    },
            decreases cells@.len() - i,
        {
            let v = cells[i];
            if v <= 8 {
                self.cells.set(i, Cell::Revealed(v));
            }
            i += 1;
        }
        proof {
            assert(self.cells@ =~= apply_values(start, cells@));
        }
    }

    /// Flags a hidden cell, or unflags a flagged one; other cells stay.
    pub fn flag_cell(&mut self, index: usize)
        requires
            index < old(self).cells@.len(),
        ensures
            final(self).dim == old(self).dim,
            final(self).cells@ == match old(self).cells@[index as int] {
                Cell::Hidden(f) => old(self).cells@.update(index as int, Cell::Hidden(!f)),
                _ => old(self).cells@,
            },
    {
        if let Cell::Hidden(f) = self.cells[index] {
            self.cells.set(index, Cell::Hidden(!f));
        }
    }

    /// Shows every hidden cell as a mine.
    pub fn reveal_all_as_mines(&mut self)
        ensures
            final(self).dim == old(self).dim,
            final(self).cells@ == hidden_as_mines(old(self).cells@),
    {
        let ghost start = self.cells@;
        let mut i: usize = 0;
        while i < self.cells.len()
            invariant
                i <= start.len(),
                self.cells@.len() == start.len(),
                self.dim == old(self).dim,
                start == old(self).cells@,
                forall|t: int|
                    0 <= t < start.len() ==> #[trigger] self.cells@[t] == if t < i {
                        hidden_as_mines(start)[t]
                    } else {
                        start[t]
                    },
            decreases start.len() - i,
        {
            if let Cell::Hidden(_) = self.cells[i] {
                self.cells.set(i, Cell::Mine);
            }
            i += 1;
        }
        proof {
            assert(self.cells@ =~= hidden_as_mines(start));
        }
    }

    /// Shows each listed cell as an exploded mine.
    pub fn show_mines(&mut self, mines: &Vec<u16>)
        requires
            forall|k: int| 0 <= k < mines@.len() ==> (#[trigger] mines@[k] as int) < old(self).cells@.len(),
        ensures
            final(self).dim == old(self).dim,
            final(self).cells@ == mines_exploded(old(self).cells@, mines@),
    {
        let ghost start = self.cells@;
        let mut k: usize = 0;
        while k < mines.len()
            invariant
                k <= mines@.len(),
                self.cells@.len() == start.len(),
                self.dim == old(self).dim,
                start == old(self).cells@,
                forall|j: int| 0 <= j < mines@.len() ==> (#[trigger] mines@[j] as int) < start.len(),
                forall|t: int|
                    0 <= t < start.len() ==> #[trigger] self.cells@[t] == if listed(
                        mines@.take(k as int),
                        t,
                    ) {
                        Cell::MineExploded
                    } else {
                        start[t]
                    },
            decreases mines@.len() - k,
        {
            let m = mines[k];
            self.cells.set(m as usize, Cell::MineExploded);
            proof {
                let before = mines@.take(k as int);
                let after = mines@.take(k + 1);
                assert forall|t: int| 0 <= t < start.len() implies (#[trigger] listed(after, t)
                    <==> (listed(before, t) || t == m as int)) by {
                    if listed(after, t) {
                        let j = choose|j: int| 0 <= j < after.len() && after[j] as int == t;
                        if j < k {
                            assert(before[j] == after[j]);
                        }
                    }
                    if listed(before, t) {
                        let j = choose|j: int| 0 <= j < before.len() && before[j] as int == t;
                        assert(after[j] == before[j]);
                    }
                    if t == m as int {
                        assert(after[k as int] == m);
                    }
                }
            }
            k += 1;
        }
        proof {
            assert(mines@.take(mines@.len() as int) =~= mines@);
            assert(self.cells@ =~= mines_exploded(start, mines@));
        }
    }
}

/// Why a reply to a reveal could not be applied.
#[derive(Clone, Copy, Debug, PartialEq, Eq, Structural)]
pub enum ReplyError {
    /// The reply's values do not match the board's size, or a mine lies off
    /// the board.
    Malformed,
    /// The reply is not one that answers a reveal.
    Unexpected,
}

/// The client's game: its state, its board and the last error code the
/// server sent.
pub struct ClientGame {
    pub error_code: u16,
    pub state: State,
    pub board: Option<Board>,
}

/// The client's game after applying a reveal reply `reply` to `o`.
pub open spec fn reply_applied(o: &ClientGame, n: &ClientGame, reply: &ServerMsg, r: Result<(), ReplyError>) -> bool {
    let b = o.board->0;
    match reply {
        ServerMsg::Error(code) => r is Ok && n.error_code == *code && n.state == o.state && n.board == o.board,
        ServerMsg::RevealCells(v) => if v@.len() == b.cells@.len() {
            {
            &&& r is Ok
            &&& n.error_code == o.error_code
            &&& n.state == o.state
            &&& n.board matches Some(nb) && nb.dim == b.dim && nb.cells@ == apply_values(b.cells@, v@)
        }
        } else {
            r == Err::<(), ReplyError>(ReplyError::Malformed) && n.error_code == o.error_code && n.state == o.state && n.board == o.board
        },
        ServerMsg::GameWin(v) => if v@.len() == b.cells@.len() {
            {
            &&& r is Ok
            &&& n.error_code == o.error_code
            &&& n.state == State::Won
            &&& n.board matches Some(nb) && nb.dim == b.dim && nb.cells@ == hidden_as_mines(apply_values(b.cells@, v@))
        }
        } else {
            r == Err::<(), ReplyError>(ReplyError::Malformed) && n.error_code == o.error_code && n.state == o.state && n.board == o.board
        },
        ServerMsg::GameLoss(m) => if (forall|k: int| 0 <= k < m@.len() ==> (#[trigger] m@[k] as int) < b.cells@.len()) {
            {
            &&& r is Ok
            &&& n.error_code == o.error_code
            &&& n.state == State::Lost
            &&& n.board matches Some(nb) && nb.dim == b.dim && nb.cells@ == mines_exploded(b.cells@, m@)
        }
        } else {
            r == Err::<(), ReplyError>(ReplyError::Malformed) && n.error_code == o.error_code && n.state == o.state && n.board == o.board
        },
        _ => r == Err::<(), ReplyError>(ReplyError::Unexpected) && n.error_code == o.error_code && n.state == o.state && n.board == o.board,
    }
}

impl ClientGame {
    /// No game yet.
    pub fn new() -> (r: ClientGame)
        ensures
            r.error_code == 200,
            r.state == State::Idle,
            r.board is None,
    {
        ClientGame { error_code: 200, state: State::Idle, board: None }
    }

    /// Whether a reveal should be sent: a board is in play.
    pub fn can_reveal(&self) -> (r: bool)
        ensures
            r == (self.board is Some && self.state == State::Playing),
    {
        self.board.is_some() && self.state == State::Playing
    }

    /// Takes the server's answer to a new-game request: where it accepted,
    /// a fresh `dim` board is in play; otherwise nothing changes.
    pub fn start_game(&mut self, dim: (usize, usize), reply: &ServerMsg)
        requires
            dim.0 * dim.1 <= usize::MAX,
        ensures
            final(self).error_code == old(self).error_code,
            reply is Accepted ==> {
                &&& final(self).state == State::Playing
                &&& final(self).board matches Some(b) && b.dim == dim && b.cells@ == Seq::new(
                    (dim.0 * dim.1) as nat,
                    |i: int| Cell::Hidden(false),
                )
            },
            !(reply is Accepted) ==> final(self).state == old(self).state && final(self).board == old(self).board,
    {
        if let ServerMsg::Accepted() = reply {
            self.board = Some(Board::new(dim));
            self.state = State::Playing;
        }
    }

    /// Takes the server's answer to a close-game request: where it
    /// accepted, the board is dropped; otherwise nothing changes.
    pub fn end_game(&mut self, reply: &ServerMsg)
        ensures
            final(self).error_code == old(self).error_code,
            reply is Accepted ==> final(self).state == State::Idle && final(self).board is None,
            !(reply is Accepted) ==> final(self).state == old(self).state && final(self).board == old(self).board,
    {
        if let ServerMsg::Accepted() = reply {
            self.board = None;
            self.state = State::Idle;
        }
    }

    /// Applies the server's answer to a reveal to the board in play.
    pub fn apply_reveal_reply(&mut self, reply: &ServerMsg) -> (r: Result<(), ReplyError>)
        requires
            old(self).board is Some,
        ensures
            reply_applied(old(self), final(self), reply, r),
    {
        let mut board = self.board.take().unwrap();
        let r = match reply {
            ServerMsg::Error(code) => {
                self.error_code = *code;
                Ok(())
            },
            ServerMsg::RevealCells(cells) => {
                if cells.len() == board.cells.len() {
                    board.reveal_cells(cells);
                    Ok(())
                } else {
                    Err(ReplyError::Malformed)
                }
            },
            ServerMsg::GameWin(cells) => {
                if cells.len() == board.cells.len() {
                    board.reveal_cells(cells);
                    board.reveal_all_as_mines();
                    self.state = State::Won;
                    Ok(())
                } else {
                    Err(ReplyError::Malformed)
                }
            },
            ServerMsg::GameLoss(mines) => {
                if all_below(mines, board.cells.len()) {
                    board.show_mines(mines);
                    self.state = State::Lost;
                    Ok(())
                } else {
                    Err(ReplyError::Malformed)
                }
            },
            _ => Err(ReplyError::Unexpected),
        };
        self.board = Some(board);
        r
    }

    /// Flags or unflags cell `index` while a game is in play.
    pub fn flag_cell(&mut self, index: usize)
        requires
            old(self).board matches Some(b) ==> index < b.cells@.len(),
        ensures
            final(self).error_code == old(self).error_code,
            final(self).state == old(self).state,
            (old(self).state == State::Playing && old(self).board is Some) ==> {
                &&& final(self).board matches Some(nb) && nb.dim == old(self).board->0.dim
                    && nb.cells@ == match old(self).board->0.cells@[index as int] {
                    Cell::Hidden(f) => old(self).board->0.cells@.update(index as int, Cell::Hidden(!f)),
                    _ => old(self).board->0.cells@,
                }
            },
            !(old(self).state == State::Playing && old(self).board is Some) ==> final(self).board == old(self).board,
    {
        if self.state == State::Playing && self.board.is_some() {
            let mut board = self.board.take().unwrap();
            board.flag_cell(index);
            self.board = Some(board);
        }
    }
}

/// Whether every entry of `v` is below `n`.
fn all_below(v: &Vec<u16>, n: usize) -> (r: bool)
    ensures
        r == forall|k: int| 0 <= k < v@.len() ==> (#[trigger] v@[k] as int) < n,
{
    let mut i: usize = 0;
    while i < v.len()
        invariant
            i <= v@.len(),
            forall|k: int| 0 <= k < i ==> (#[trigger] v@[k] as int) < n,
        decreases v@.len() - i,
    {
        if v[i] as usize >= n {
            return false;
        }
        i += 1;
    }
    true
}

} // verus!
