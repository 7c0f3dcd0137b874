//! The per-connection session: one board at most, the game's state, and the
//! answer to each client request.
use vstd::prelude::*;
use vstd::utf8::{decode_utf8, encode_utf8, is_ascii_chars};

use crate::board::{
    BoardInstance, all_safe_revealed, is_mine, mine_positions, mines_of, neighbor_mines,
    reveal_step, reveal_values,
};
use crate::protocol::{ClientMsg, ServerMsg, ServerMsgView, string_from_utf8};

verus! {

/// A reveal was asked for while no board exists.
pub const NO_GAME: u16 = 100;

/// A reveal named a cell that is not on the board.
pub const OUT_OF_RANGE: u16 = 101;

/// A new game was asked for while a board exists.
pub const GAME_ACTIVE: u16 = 102;

/// A new game was asked for with a size or mine count that leaves no safe
/// cell.
pub const INVALID_BOARD: u16 = 103;

/// A reveal was asked for after the game was won or lost.
pub const GAME_OVER: u16 = 104;

/// The state of the session's game.
#[derive(Clone, Copy, Debug, PartialEq, Eq, Structural)]
pub enum State {
    Playing,
    Idle,
    Lost,
    Won,
}

/// The server side of one connection.
pub struct ClientHandler {
    pub version: u16,
    pub board: Option<BoardInstance>,
    pub state: State,
    /// When the current game started, in milliseconds of the caller's clock.
    pub started_at: u64,
}

/// The decimal digits of `n`.
pub open spec fn decimal(n: nat) -> Seq<char>
    decreases n,
{
    if n < 10 {
        seq![digit(n)]
    } else {
        decimal(n / 10).push(digit(n % 10))
    }
}

/// The character of the decimal digit `d`.
pub open spec fn digit(d: nat) -> char {
    (('0' as u8) + d) as char
}

/// `ms` milliseconds written as seconds with three decimals, as in `12.034s`.
pub open spec fn elapsed_text(ms: nat) -> Seq<char> {
    decimal(ms / 1000) + seq!['.', digit(ms / 100 % 10), digit(ms / 10 % 10), digit(ms % 10), 's']
}

/// The session is the same in `o` and `n`.
pub open spec fn unchanged(o: &ClientHandler, n: &ClientHandler) -> bool {
    n.version == o.version && n.board == o.board && n.state == o.state && n.started_at
        == o.started_at
}

/// The answer to `NewGame(width, height, mine_count)`, taking the session
/// from `o` to `n` (where a game starts, its start time is set apart).
pub open spec fn new_game_outcome(
    o: &ClientHandler,
    n: &ClientHandler,
    width: usize,
    height: usize,
    mine_count: usize,
    r: ServerMsgView,
) -> bool {
    if o.board is Some {
        r == ServerMsgView::Error(GAME_ACTIVE) && unchanged(o, n)
    } else if !(width * height <= usize::MAX && mine_count < width * height) {
        r == ServerMsgView::Error(INVALID_BOARD) && unchanged(o, n)
    } else {
        &&& r == ServerMsgView::Accepted
        &&& n.version == o.version
        &&& n.state == State::Playing
        &&& n.board matches Some(b) && {
            &&& b.wf()
            &&& b.dim == (width, height)
            &&& b.mine_count == mine_count
            &&& b.revealed_count == 0
            &&& forall|i: int| 0 <= i < b.cells@.len() ==> (#[trigger] b.cells@[i]).hidden
        }
    }
}

/// The answer to `Reveal(index)`, taking the session from `o` to `n`.
pub open spec fn reveal_outcome(o: &ClientHandler, n: &ClientHandler, index: int, r: ServerMsgView) -> bool {
    match o.board {
        None => r == ServerMsgView::Error(NO_GAME) && unchanged(o, n),
        Some(ob) => if o.state != State::Playing {
            r == ServerMsgView::Error(GAME_OVER) && unchanged(o, n)
        } else if !(0 <= index < ob.cells@.len()) {
            r == ServerMsgView::Error(OUT_OF_RANGE) && unchanged(o, n)
        } else {
            &&& n.version == o.version
            &&& n.started_at == o.started_at
            &&& n.board matches Some(nb) && {
                &&& nb.wf()
                &&& reveal_step(&ob, &nb, index)
                &&& if ob.cells@[index].hidden && is_mine(ob.cells@[index]) {
                    n.state == State::Lost && r == ServerMsgView::GameLoss(
                        mine_positions(nb.cells@),
                    )
                } else if all_safe_revealed(nb.cells@) {
                    n.state == State::Won && r == ServerMsgView::GameWin(
                        reveal_values(ob.cells@, nb.cells@),
                    )
                } else {
                    n.state == State::Playing && r == ServerMsgView::RevealCells(
                        reveal_values(ob.cells@, nb.cells@),
                    )
                }
            }
        },
    }
}

/// The answer to `SetVersion(version)`.
pub open spec fn set_version_outcome(o: &ClientHandler, n: &ClientHandler, version: u16, r: ServerMsgView) -> bool {
    n.version == version && n.board is None && n.state == State::Idle && n.started_at
        == o.started_at && r == ServerMsgView::Accepted
}

/// The answer to `CloseGame()`.
pub open spec fn close_game_outcome(o: &ClientHandler, n: &ClientHandler, r: ServerMsgView) -> bool {
    n.version == o.version && n.board is None && n.state == State::Idle && n.started_at
        == o.started_at && r == ServerMsgView::Accepted
}

impl ClientHandler {
    /// The session's invariant: a board exists exactly outside `Idle`, is
    /// well formed, and is fully cleared exactly when the game is won
    /// (while playing, it is not yet).
    pub open spec fn wf(&self) -> bool {
        &&& (self.state == State::Idle) == (self.board is None)
        &&& self.board matches Some(b) ==> {
            &&& b.wf()
            &&& self.state == State::Playing ==> !all_safe_revealed(b.cells@)
            &&& self.state == State::Won ==> all_safe_revealed(b.cells@)
        }
    }

    /// A session with no board, at protocol version 0.
    pub fn new() -> (r: Self)
        ensures
            r.wf(),
            r.version == 0,
            r.board is None,
            r.state == State::Idle,
    {
        ClientHandler { version: 0, board: None, state: State::Idle, started_at: 0 }
    }

    /// Records the protocol version and drops any board.
    pub fn set_version(&mut self, version: u16) -> (r: ServerMsg)
        ensures
            final(self).wf(),
            set_version_outcome(old(self), final(self), version, r@),
    {
        self.version = version;
        self.board = None;
        self.state = State::Idle;
        ServerMsg::Accepted()
    }

    /// Starts a game on a new `width` by `height` board with `mine_count`
    /// mines, where no board exists and the board keeps a safe cell.
    pub fn new_game(&mut self, width: usize, height: usize, mine_count: usize) -> (r: ServerMsg)
        requires
            old(self).wf(),
        ensures
            final(self).wf(),
            new_game_outcome(old(self), final(self), width, height, mine_count, r@),
            final(self).started_at == old(self).started_at,
    {
        if self.board.is_some() {
            return ServerMsg::Error(GAME_ACTIVE);
        }
        match BoardInstance::init(&(width, height), mine_count) {
            Some(b) => {
                proof {
                    lemma_fresh_board_not_cleared(&b);
                }
                self.board = Some(b);
                self.state = State::Playing;
                ServerMsg::Accepted()
            },
            None => ServerMsg::Error(INVALID_BOARD),
        }
    }

    /// Drops the board and goes back to `Idle`.
    pub fn close_game(&mut self) -> (r: ServerMsg)
        ensures
            final(self).wf(),
            close_game_outcome(old(self), final(self), r@),
    {
        self.state = State::Idle;
        self.board = None;
        ServerMsg::Accepted()
    }

    /// Reveals cell `index` of the board in play and answers with what was
    /// revealed, the mines where the game is lost, or an error.
    pub fn reveal_index(&mut self, index: usize) -> (r: ServerMsg)
        requires
            old(self).wf(),
        ensures
            final(self).wf(),
            reveal_outcome(old(self), final(self), index as int, r@),
    {
        if self.board.is_none() {
            return ServerMsg::Error(NO_GAME);
        }
        if self.state != State::Playing {
            return ServerMsg::Error(GAME_OVER);
        }
        let mut board = self.board.take().unwrap();
        if index >= board.cells.len() {
            self.board = Some(board);
            return ServerMsg::Error(OUT_OF_RANGE);
        }
        let revealed = board.reveal_cells(index);
        let r = if revealed.len() == 0 {
            self.state = State::Lost;
            ServerMsg::GameLoss(board.get_bomb_positions())
        } else if board.revealed_all() {
            self.state = State::Won;
            ServerMsg::GameWin(revealed)
        } else {
            ServerMsg::RevealCells(revealed)
        };
        self.board = Some(board);
        r
    }

    /// Answers one request at time `now` (milliseconds of the caller's
    /// clock); `None` ends the session, as an `Error` sent by the client
    /// does.
    pub fn dispatch(&mut self, msg: ClientMsg, now: u64) -> (r: Option<ServerMsg>)
        requires
            old(self).wf(),
        ensures
            final(self).wf(),
            match msg {
                ClientMsg::Error(_) => r is None && unchanged(old(self), final(self)),
                ClientMsg::SetVersion(v) => r matches Some(m) && set_version_outcome(
                    old(self),
                    final(self),
                    v,
                    m@,
                ),
                ClientMsg::NewGame(w, h, n) => r matches Some(m) && new_game_outcome(
                    old(self),
                    final(self),
                    w as usize,
                    h as usize,
                    n as usize,
                    m@,
                ) && (m@ == ServerMsgView::Accepted ==> final(self).started_at == now),
                ClientMsg::Reveal(i) => r matches Some(m) && reveal_outcome(
                    old(self),
                    final(self),
                    i as int,
                    m@,
                ),
                ClientMsg::GetTime() => unchanged(old(self), final(self)) && (r matches Some(m)
                    && m@ == ServerMsgView::Time(
                    elapsed_text(
                        (if now >= old(self).started_at {
                            now - old(self).started_at
                        } else {
                            0int
                        }) as nat,
                    ),
                )),
                ClientMsg::CloseGame() => r matches Some(m) && close_game_outcome(
                    old(self),
                    final(self),
                    m@,
                ),
            },
    {
        match msg {
            ClientMsg::Error(_) => None,
            ClientMsg::SetVersion(v) => Some(self.set_version(v)),
            ClientMsg::NewGame(w, h, n) => {
                let r = self.new_game(w as usize, h as usize, n as usize);
                if let ServerMsg::Accepted() = r {
                    self.started_at = now;
                }
                Some(r)
            },
            ClientMsg::Reveal(i) => Some(self.reveal_index(i as usize)),
            ClientMsg::GetTime() => {
                let elapsed = if now >= self.started_at {
                    now - self.started_at
                } else {
                    0
                };
                Some(ServerMsg::Time(elapsed_string(elapsed)))
            },
            ClientMsg::CloseGame() => Some(self.close_game()),
        }
    }
}

/// Revealing a hidden mine while playing loses the game, and the reply lists
/// as many mine positions as the board has mines.
pub proof fn lemma_loss_lists_all_mines(
    o: &ClientHandler,
    n: &ClientHandler,
    index: int,
    r: ServerMsgView,
)
    requires
        o.wf(),
        o.state == State::Playing,
        o.board matches Some(b) && 0 <= index < b.cells@.len() && b.cells@[index].hidden
            && is_mine(b.cells@[index]),
        reveal_outcome(o, n, index, r),
    ensures
        n.state == State::Lost,
        r matches ServerMsgView::GameLoss(v) && v.len() == o.board->0.mine_count,
{
    let nb = n.board->0;
    crate::board::lemma_mine_positions_len(nb.cells@);
}

/// On a fresh 2 by 2 board with one mine, revealing the three safe cells one
/// after the other keeps the game in play after the first two and wins it
/// with the third.
#[verifier::rlimit(60)]
pub proof fn lemma_two_by_two_win(
    h0: &ClientHandler,
    h1: &ClientHandler,
    h2: &ClientHandler,
    h3: &ClientHandler,
    i1: int,
    i2: int,
    i3: int,
    r1: ServerMsgView,
    r2: ServerMsgView,
    r3: ServerMsgView,
)
    requires
        h0.wf(),
        h0.state == State::Playing,
        h0.board matches Some(b) && {
            &&& b.dim == (2usize, 2usize)
            &&& b.mine_count == 1
            &&& forall|i: int| 0 <= i < 4 ==> (#[trigger] b.cells@[i]).hidden
            &&& 0 <= i1 < 4 && 0 <= i2 < 4 && 0 <= i3 < 4
            &&& i1 != i2 && i1 != i3 && i2 != i3
            &&& !is_mine(b.cells@[i1]) && !is_mine(b.cells@[i2]) && !is_mine(b.cells@[i3])
        },
        reveal_outcome(h0, h1, i1, r1),
        reveal_outcome(h1, h2, i2, r2),
        reveal_outcome(h2, h3, i3, r3),
    ensures
        h1.state == State::Playing,
        h2.state == State::Playing,
        h3.state == State::Won,
{
    let b0 = h0.board->0;
    let c0 = b0.cells@;
    let m = crate::board::lemma_some_true(mines_of(c0));
    assert(is_mine(c0[m]));
    assert(m != i1 && m != i2 && m != i3);
    // Every safe cell touches the mine, so each reveal uncovers one cell.
    assert forall|c: int| 0 <= c < 4 && c != m implies neighbor_mines(mines_of(c0), 2, 2, c) >= 1 by {
        assert(mines_of(c0)[m]);
        assert(m == 0 || m == 1 || m == 2 || m == 3);
        assert(c == 0 || c == 1 || c == 2 || c == 3);
    }
    let b1 = h1.board->0;
    crate::board::lemma_reveal_numbered(&b0, &b1, i1);
    assert(c0[i2].hidden && !b1.cells@[i1].hidden);
    assert(!all_safe_revealed(b1.cells@)) by {
        assert(!is_mine(b1.cells@[i2]) && b1.cells@[i2].hidden);
    }
    let b2 = h2.board->0;
    assert(b1.cells@[i2].proximity == c0[i2].proximity);
    crate::board::lemma_reveal_numbered(&b1, &b2, i2);
    assert(!all_safe_revealed(b2.cells@)) by {
        assert(!is_mine(b2.cells@[i3]) && b2.cells@[i3].hidden);
    }
    let b3 = h3.board->0;
    assert(b2.cells@[i3].proximity == c0[i3].proximity);
    crate::board::lemma_reveal_numbered(&b2, &b3, i3);
    assert(all_safe_revealed(b3.cells@)) by {
        assert forall|i: int| 0 <= i < b3.cells@.len() && !is_mine(#[trigger] b3.cells@[i]) implies !b3.cells@[i].hidden by {
            assert(b3.cells@[i].proximity == c0[i].proximity);
            assert(i == i1 || i == i2 || i == i3 || i == m);
        }
    }
}

/// A board fresh from `init` still has a hidden safe cell.
proof fn lemma_fresh_board_not_cleared(b: &BoardInstance)
    requires
        b.wf(),
        forall|i: int| 0 <= i < b.cells@.len() ==> (#[trigger] b.cells@[i]).hidden,
    ensures
        !all_safe_revealed(b.cells@),
{
    let i = crate::board::lemma_some_false(crate::board::mines_of(b.cells@));
    assert(!is_mine(b.cells@[i]));
}

/// `ms` milliseconds as the text `elapsed_text(ms)`.
pub fn elapsed_string(ms: u64) -> (r: String)
    ensures
        r@ == elapsed_text(ms as nat),
{
    let mut bytes: Vec<u8> = Vec::new();
    push_decimal(&mut bytes, ms / 1000);
    bytes.push(46u8);
    bytes.push(48u8 + (ms / 100 % 10) as u8);
    bytes.push(48u8 + (ms / 10 % 10) as u8);
    bytes.push(48u8 + (ms % 10) as u8);
    bytes.push(115u8);
    let ghost chars = elapsed_text(ms as nat);
    proof {
        lemma_decimal_ascii((ms / 1000) as nat);
        assert(is_ascii_chars(chars));
        vstd::utf8::is_ascii_chars_encode_utf8(chars);
        assert(bytes@ =~= encode_utf8(chars));
        vstd::utf8::encode_utf8_valid_utf8(chars);
        vstd::utf8::encode_utf8_decode_utf8(chars);
    }
    match string_from_utf8(bytes) {
        Some(t) => t,
        None => {
            proof {
                assert(false);
            }
            String::new()
        },
    }
}

/// Appends the ASCII digits of `n`.
fn push_decimal(out: &mut Vec<u8>, n: u64)
    ensures
        final(out)@.len() == old(out)@.len() + decimal(n as nat).len(),
        forall|i: int| 0 <= i < old(out)@.len() ==> final(out)@[i] == old(out)@[i],
        forall|i: int|
            0 <= i < decimal(n as nat).len() ==> final(out)@[old(out)@.len() + i] == decimal(
                n as nat,
            )[i] as u8,
    decreases n,
{
    if n >= 10 {
        push_decimal(out, n / 10);
    }
    out.push(48u8 + (n % 10) as u8);
}

/// The digits of a number are ASCII.
proof fn lemma_decimal_ascii(n: nat)
    ensures
        is_ascii_chars(decimal(n)),
    decreases n,
{
    if n >= 10 {
        lemma_decimal_ascii(n / 10);
    }
}

} // verus!
