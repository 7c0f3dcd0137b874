//! The board engine: mine placement, proximity counts, flood-fill reveal and
//! win detection.
use rand::seq::SliceRandom;
use vstd::prelude::*;

verus! {

/// The proximity value that marks a cell holding a mine.
pub const MINE: u8 = 255;

/// One grid position: how many mines surround it (or `MINE`), and whether it
/// is still hidden.
#[derive(Clone, Copy, Debug, PartialEq, Eq, Structural)]
pub struct Cell {
    pub proximity: u8,
    pub hidden: bool,
}

/// A board of `dim.0 * dim.1` cells in row-major order (`index = x + y * width`).
pub struct BoardInstance {
    pub dim: (usize, usize),
    pub cells: Vec<Cell>,
    pub revealed_count: usize,
    pub mine_count: usize,
}

/// The number of `true` entries of `s`.
pub open spec fn count_true(s: Seq<bool>) -> nat
    decreases s.len(),
{
    if s.len() == 0 {
        0
    } else {
        count_true(s.drop_last()) + if s.last() {
            1nat
        } else {
            0nat
        }
    }
}

/// The cell holds a mine.
pub open spec fn is_mine(c: Cell) -> bool {
    c.proximity == MINE
}

/// Where the mines are.
pub open spec fn mines_of(cells: Seq<Cell>) -> Seq<bool> {
    cells.map_values(|c: Cell| is_mine(c))
}

/// Which cells are revealed.
pub open spec fn revealed_of(cells: Seq<Cell>) -> Seq<bool> {
    cells.map_values(|c: Cell| !c.hidden)
}

/// 1 if the grid position `(x, y)` is on the board and holds a mine, else 0.
pub open spec fn mine_at(mines: Seq<bool>, w: int, h: int, x: int, y: int) -> nat {
    if 0 <= x < w && 0 <= y < h && mines[x + y * w] {
        1
    } else {
        0
    }
}

/// The number of mines among the (up to eight) cells around cell `i`.
pub open spec fn neighbor_mines(mines: Seq<bool>, w: int, h: int, i: int) -> nat {
    let x = i % w;
    let y = i / w;
    mine_at(mines, w, h, x - 1, y - 1) + mine_at(mines, w, h, x, y - 1) + mine_at(
        mines,
        w,
        h,
        x + 1,
        y - 1,
    ) + mine_at(mines, w, h, x - 1, y) + mine_at(mines, w, h, x + 1, y) + mine_at(
        mines,
        w,
        h,
        x - 1,
        y + 1,
    ) + mine_at(mines, w, h, x, y + 1) + mine_at(mines, w, h, x + 1, y + 1)
}

/// Cells `a` and `b` are distinct cells of a `w` by `h` board that touch,
/// sideways or diagonally.
pub open spec fn adjacent(w: int, h: int, a: int, b: int) -> bool {
    &&& 0 <= a < w * h
    &&& 0 <= b < w * h
    &&& a != b
    &&& -1 <= a % w - b % w <= 1
    &&& -1 <= a / w - b / w <= 1
}

/// Every non-mine cell holds the number of mines around it.
pub open spec fn proximities_correct(cells: Seq<Cell>, w: int, h: int) -> bool {
    forall|i: int|
        0 <= i < cells.len() && !is_mine(#[trigger] cells[i]) ==> cells[i].proximity as nat
            == neighbor_mines(mines_of(cells), w, h, i)
}

/// Every cell that is not a mine has been revealed.
pub open spec fn all_safe_revealed(cells: Seq<Cell>) -> bool {
    forall|i: int| 0 <= i < cells.len() && !is_mine(#[trigger] cells[i]) ==> !cells[i].hidden
}

/// Column offset of the `k`-th neighbour, in the order left, right, up,
/// down, upper-left, lower-right, lower-left, upper-right.
pub open spec fn offset_x(k: int) -> int {
    if k == 0 || k == 4 || k == 6 {
        -1
    } else if k == 1 || k == 5 || k == 7 {
        1
    } else {
        0
    }
}

/// Row offset of the `k`-th neighbour (see `offset_x`).
pub open spec fn offset_y(k: int) -> int {
    if k == 2 || k == 4 || k == 7 {
        -1
    } else if k == 3 || k == 5 || k == 6 {
        1
    } else {
        0
    }
}

/// The `k`-th neighbour of grid position `(x, y)` lies on the grid.
pub open spec fn neighbor_on_grid(w: int, h: int, x: int, y: int, k: int) -> bool {
    0 <= x + offset_x(k) < w && 0 <= y + offset_y(k) < h
}

/// The index of the `k`-th neighbour of grid position `(x, y)`.
pub open spec fn neighbor_index(w: int, x: int, y: int, k: int) -> int {
    (x + offset_x(k)) + (y + offset_y(k)) * w
}

/// Cell `i` was hidden in `o` and is revealed in `n`.
pub open spec fn newly_revealed(o: Seq<Cell>, n: Seq<Cell>, i: int) -> bool {
    0 <= i < o.len() && o[i].hidden && !n[i].hidden
}

/// Revealing cell `i` of `cells` uncovers something: it is on the board,
/// hidden, and not a mine.
pub open spec fn revealable(cells: Seq<Cell>, i: int) -> bool {
    0 <= i < cells.len() && cells[i].hidden && !is_mine(cells[i])
}

/// What a reveal keeps: the board's shape, its mines and proximities, and
/// every cell that was already revealed.
pub open spec fn reveal_frame(o: &BoardInstance, n: &BoardInstance) -> bool {
    &&& n.dim == o.dim
    &&& n.mine_count == o.mine_count
    &&& n.cells@.len() == o.cells@.len()
    &&& forall|i: int|
        0 <= i < o.cells@.len() ==> (#[trigger] n.cells@[i]).proximity == o.cells@[i].proximity
            && (!o.cells@[i].hidden ==> !n.cells@[i].hidden)
}

/// Every zero-proximity cell uncovered from `o` to `n` has all its
/// neighbours revealed in `n`.
pub open spec fn cascade_closed(o: Seq<Cell>, n: Seq<Cell>, w: int, h: int) -> bool {
    forall|a: int, b: int|
        #[trigger] newly_revealed(o, n, a) && n[a].proximity == 0 && #[trigger] adjacent(
            w,
            h,
            a,
            b,
        ) ==> !n[b].hidden
}

/// `s` is closed under the cascade from the hidden cells of `o`: with a
/// hidden zero-proximity cell it holds each hidden neighbour of that cell.
pub open spec fn closed_region(s: Set<int>, o: Seq<Cell>, w: int, h: int) -> bool {
    forall|a: int, b: int|
        #[trigger] s.contains(a) && o[a].hidden && o[a].proximity == 0 && #[trigger] adjacent(
            w,
            h,
            a,
            b,
        ) && o[b].hidden ==> s.contains(b)
}

/// Every cell uncovered from `o` to `n` lies in `s`.
pub open spec fn uncovered_within(s: Set<int>, o: Seq<Cell>, n: Seq<Cell>) -> bool {
    forall|c: int| #[trigger] newly_revealed(o, n, c) ==> s.contains(c)
}

/// The cells uncovered from `o` to `n` lie in every cascade-closed region
/// that holds `start`: nothing outside the cascade from `start` is revealed.
pub open spec fn cascade_minimal(o: Seq<Cell>, n: Seq<Cell>, w: int, h: int, start: int) -> bool {
    forall|s: Set<int>|
        #[trigger] closed_region(s, o, w, h) && s.contains(start) ==> uncovered_within(s, o, n)
}

/// `r` lists each cell uncovered from `o` to `n` exactly once, with its
/// proximity.
pub open spec fn lists_uncovered(o: Seq<Cell>, n: Seq<Cell>, r: Seq<(usize, u8)>) -> bool {
    &&& forall|k: int|
        0 <= k < r.len() ==> newly_revealed(o, n, (#[trigger] r[k]).0 as int) && r[k].1
            == n[r[k].0 as int].proximity
    &&& forall|c: int|
        #[trigger] newly_revealed(o, n, c) ==> exists|k: int| 0 <= k < r.len() && r[k].0 == c
    &&& forall|j: int, k: int|
        0 <= j < r.len() && 0 <= k < r.len() && j != k ==> (#[trigger] r[j]).0 != (
        #[trigger] r[k]).0
}

/// How a reveal at `index` takes a board from `o` to `n`: where the cell is
/// revealable it is uncovered together with its whole cascade and nothing
/// else; otherwise nothing changes.
pub open spec fn reveal_step(o: &BoardInstance, n: &BoardInstance, index: int) -> bool {
    let w = o.dim.0 as int;
    let h = o.dim.1 as int;
    &&& reveal_frame(o, n)
    &&& !revealable(o.cells@, index) ==> n.cells@ == o.cells@
    &&& revealable(o.cells@, index) ==> {
        &&& newly_revealed(o.cells@, n.cells@, index)
        &&& cascade_closed(o.cells@, n.cells@, w, h)
        &&& cascade_minimal(o.cells@, n.cells@, w, h, index)
    }
}

/// The indices of the mine cells of `s`, in order, as `u16`.
pub open spec fn mine_positions(s: Seq<Cell>) -> Seq<u16>
    decreases s.len(),
{
    if s.len() == 0 {
        seq![]
    } else if is_mine(s.last()) {
        mine_positions(s.drop_last()).push((s.len() - 1) as u16)
    } else {
        mine_positions(s.drop_last())
    }
}

/// What a reveal hands the client for each cell: its proximity where the
/// reveal uncovered it, and 9 elsewhere.
pub open spec fn reveal_values(o: Seq<Cell>, n: Seq<Cell>) -> Seq<u8> {
    Seq::new(o.len(), |i: int| if newly_revealed(o, n, i) { n[i].proximity } else { 9u8 })
}

/// Mines sit exactly at the positions listed.
pub open spec fn mines_placed(cells: Seq<Cell>, mines: Seq<usize>) -> bool {
    forall|i: int| 0 <= i < cells.len() ==> (is_mine(#[trigger] cells[i]) <==> mines.contains(i as usize))
}

impl BoardInstance {
    /// The board's invariant.
    pub open spec fn wf(&self) -> bool {
        let w = self.dim.0 as int;
        let h = self.dim.1 as int;
        &&& self.cells@.len() == w * h
        &&& self.mine_count < self.cells@.len()
        &&& self.mine_count == count_true(mines_of(self.cells@))
        &&& self.revealed_count == count_true(revealed_of(self.cells@))
        &&& proximities_correct(self.cells@, w, h)
        &&& forall|i: int|
            0 <= i < self.cells@.len() && !(#[trigger] self.cells@[i]).hidden ==> !is_mine(
                self.cells@[i],
            )
    }

    /// True when every cell that is not a mine has been revealed.
    pub fn revealed_all(&self) -> (r: bool)
        requires
            self.wf(),
        ensures
            r == all_safe_revealed(self.cells@),
    {
        proof {
            lemma_count_disjoint(revealed_of(self.cells@), mines_of(self.cells@));
            if self.cells.len() - self.revealed_count == self.mine_count {
                assert forall|i: int|
                    0 <= i < self.cells@.len() && !is_mine(
                        #[trigger] self.cells@[i],
                    ) implies !self.cells@[i].hidden by {
                    assert(revealed_of(self.cells@)[i] || mines_of(self.cells@)[i]);
                }
            } else {
                assert(exists|i: int|
                    0 <= i < self.cells@.len() && !(revealed_of(self.cells@)[i] || mines_of(
                        self.cells@,
                    )[i]));
            }
        }
        self.cells.len() - self.revealed_count == self.mine_count
    }

    /// Creates a board of `dim.0 * dim.1` hidden cells with `mine_count`
    /// mines at distinct positions drawn at random. Returns `None` where the
    /// board would not keep at least one safe cell (or its size does not fit
    /// in `usize`).
    pub fn init(dim: &(usize, usize), mine_count: usize) -> (r: Option<Self>)
        ensures
            r is Some <==> dim.0 * dim.1 <= usize::MAX && mine_count < dim.0 * dim.1,
            r matches Some(b) ==> {
                &&& b.wf()
                &&& b.dim == *dim
                &&& b.mine_count == mine_count
                &&& count_true(mines_of(b.cells@)) == mine_count
                &&& mine_cells(b.cells@).len() == mine_count
                &&& proximities_correct(b.cells@, dim.0 as int, dim.1 as int)
                &&& forall|i: int|
                    0 <= i < b.cells@.len() && !is_mine(#[trigger] b.cells@[i])
                        ==> b.cells@[i].proximity as nat == mine_neighbors(
                        mines_of(b.cells@),
                        dim.0 as int,
                        dim.1 as int,
                        i,
                    ).len()
                &&& b.revealed_count == 0
                &&& forall|i: int| 0 <= i < b.cells@.len() ==> (#[trigger] b.cells@[i]).hidden
            },
    {
        let n = match dim.0.checked_mul(dim.1) {
            Some(n) => n,
            None => {
                return None;
            },
        };
        if mine_count >= n {
            return None;
        }
        let mut order: Vec<usize> = Vec::new();
        let mut i: usize = 0;
        while i < n
            invariant
                i <= n,
                order@.len() == i,
                forall|j: int| 0 <= j < i ==> order@[j] == j,
            decreases n - i,
        {
            order.push(i);
            i += 1;
        }
        let ghost sorted = order@;
        shuffle(&mut order);
        proof {
            broadcast use vstd::seq_lib::group_to_multiset_ensures;

            assert(sorted.no_duplicates());
            sorted.lemma_multiset_has_no_duplicates();
            order@.lemma_multiset_has_no_duplicates_conv();
            assert forall|j: int| 0 <= j < order@.len() implies order@[j] < n by {
                assert(order@.contains(order@[j]));
                assert(sorted.to_multiset().count(order@[j]) > 0);
                let t = choose|t: int| 0 <= t < sorted.len() && sorted[t] == order@[j];
            }
        }
        let mut chosen: Vec<usize> = Vec::new();
        let mut j: usize = 0;
        while j < mine_count
            invariant
                j <= mine_count,
                mine_count < n,
                order@.len() == n,
                order@.no_duplicates(),
                forall|t: int| 0 <= t < order@.len() ==> order@[t] < n,
                chosen@ == order@.take(j as int),
            decreases mine_count - j,
        {
            chosen.push(order[j]);
            j += 1;
            proof {
                assert(chosen@ =~= order@.take(j as int));
            }
        }
        let r = Self::with_mines(dim, &chosen);
        proof {
            if let Some(b) = &r {
                lemma_mine_count_is_mine_cells(b);
                assert forall|i: int|
                    0 <= i < b.cells@.len() && !is_mine(#[trigger] b.cells@[i]) implies b.cells@[i].proximity
                        as nat == mine_neighbors(mines_of(b.cells@), dim.0 as int, dim.1 as int, i).len() by {
                    lemma_proximity_counts_mine_neighbors(b, i);
                }
            }
        }
        r
    }

    /// Creates a board of `dim.0 * dim.1` hidden cells with mines exactly at
    /// the listed positions. Returns `None` where a position is off the board
    /// or listed twice, or where no safe cell would remain.
    pub fn with_mines(dim: &(usize, usize), mines: &Vec<usize>) -> (r: Option<Self>)
        ensures
            r is Some <==> {
                &&& dim.0 * dim.1 <= usize::MAX
                &&& mines@.len() < dim.0 * dim.1
                &&& mines@.no_duplicates()
                &&& forall|k: int| 0 <= k < mines@.len() ==> #[trigger] mines@[k] < dim.0 * dim.1
            },
            r matches Some(b) ==> {
                &&& b.wf()
                &&& b.dim == *dim
                &&& b.mine_count == mines@.len()
                &&& mines_placed(b.cells@, mines@)
                &&& b.revealed_count == 0
                &&& forall|i: int| 0 <= i < b.cells@.len() ==> (#[trigger] b.cells@[i]).hidden
            },
    {
        let n = match dim.0.checked_mul(dim.1) {
            Some(n) => n,
            None => {
                return None;
            },
        };
        if mines.len() >= n {
            return None;
        }
        let mut mask: Vec<bool> = Vec::new();
        let mut i: usize = 0;
        while i < n
            invariant
                i <= n,
                mask@.len() == i,
                forall|t: int| 0 <= t < i ==> !mask@[t],
            decreases n - i,
        {
            mask.push(false);
            i += 1;
        }
        proof {
            lemma_count_true_none(mask@);
        }
        let mut k: usize = 0;
        while k < mines.len()
            invariant
                k <= mines@.len(),
                n == dim.0 * dim.1,
                mines@.len() < n,
                mask@.len() == n,
                count_true(mask@) == k,
                forall|t: int| 0 <= t < k ==> #[trigger] mines@[t] < n,
                mines@.take(k as int).no_duplicates(),
                forall|i: int| 0 <= i < n ==> (mask@[i] <==> mines@.take(k as int).contains(i as usize)),
            decreases mines@.len() - k,
        {
            let m = mines[k];
            if m >= n {
                return None;
            }
            if mask[m] {
                proof {
                    assert(mines@.take(k as int).contains(m));
                    let t = choose|t: int| 0 <= t < k && mines@.take(k as int)[t] == m;
                    assert(mines@[t] == mines@[k as int]);
                    assert(!mines@.no_duplicates());
                }
                return None;
            }
            proof {
                lemma_count_true_update(mask@, m as int, true);
                assert(mines@.take(k + 1) =~= mines@.take(k as int).push(m));
                assert forall|i: int| 0 <= i < n implies (mask@.update(m as int, true)[i]
                    <==> mines@.take(k + 1).contains(i as usize)) by {
                    if i == m {
                        assert(mines@.take(k + 1)[k as int] == m);
                    } else if mines@.take(k + 1).contains(i as usize) {
                        let t = choose|t: int|
                            0 <= t < k + 1 && #[trigger] mines@.take(k + 1)[t] == i as usize;
                        assert(mines@.take(k as int)[t] == i as usize);
                    }
                }
            }
            mask.set(m, true);
            k += 1;
        }
        proof {
            assert(mines@.take(mines@.len() as int) =~= mines@);
        }
        let w = dim.0;
        let h = dim.1;
        let mut cells: Vec<Cell> = Vec::new();
        let mut i: usize = 0;
        while i < n
            invariant
                i <= n,
                n == w * h,
                mask@.len() == n,
                cells@.len() == i,
                forall|t: int| 0 <= t < i ==> (#[trigger] cells@[t]).hidden,
                forall|t: int| 0 <= t < i ==> (is_mine(#[trigger] cells@[t]) <==> mask@[t]),
                forall|t: int|
                    0 <= t < i && !is_mine(#[trigger] cells@[t]) ==> cells@[t].proximity as nat
                        == neighbor_mines(mask@, w as int, h as int, t),
            decreases n - i,
        {
            let proximity = if mask[i] {
                MINE
            } else {
                proof {
                    lemma_index_coords(i as int, w as int, h as int);
                }
                count_neighbor_mines(&mask, w, h, i % w, i / w)
            };
            cells.push(Cell { proximity, hidden: true });
            i += 1;
        }
        proof {
            assert(mines_of(cells@) =~= mask@);
            assert(revealed_of(cells@) =~= Seq::new(n as nat, |t: int| false));
            lemma_count_true_none(revealed_of(cells@));
        }
        Some(BoardInstance { dim: *dim, cells, revealed_count: 0, mine_count: mines.len() })
    }

    /// Reveals cell `index` as `reveal_index` does and returns one value per
    /// cell: the proximity of each cell uncovered now, 9 for every other. An
    /// empty result means that the cell was a hidden mine, or that `index`
    /// is off the board; the board is then unchanged.
    pub fn reveal_cells(&mut self, index: usize) -> (r: Vec<u8>)
        requires
            old(self).wf(),
        ensures
            final(self).wf(),
            reveal_step(old(self), final(self), index as int),
            index >= old(self).cells@.len() ==> r@.len() == 0 && final(self).cells@ == old(
                self,
            ).cells@ && final(self).revealed_count == old(self).revealed_count,
            index < old(self).cells@.len() && old(self).cells@[index as int].hidden && is_mine(
                old(self).cells@[index as int],
            ) ==> r@.len() == 0,
            index < old(self).cells@.len() && !(old(self).cells@[index as int].hidden && is_mine(
                old(self).cells@[index as int],
            )) ==> r@ == reveal_values(old(self).cells@, final(self).cells@),
    {
        let ghost o = self.cells@;
        let n = self.cells.len();
        if index >= n {
            return Vec::new();
        }
        let revealed = self.reveal_index(index);
        if revealed.len() == 0 && self.cells[index].hidden {
            return Vec::new();
        }
        let ghost c = self.cells@;
        let mut res: Vec<u8> = Vec::new();
        let mut i: usize = 0;
        while i < n
            invariant
                i <= n,
                n == o.len(),
                res@.len() == i,
                forall|t: int| 0 <= t < i ==> res@[t] == 9,
            decreases n - i,
        {
            res.push(9);
            i += 1;
        }
        let mut k: usize = 0;
        while k < revealed.len()
            invariant
                k <= revealed@.len(),
                n == o.len(),
                c.len() == o.len(),
                res@.len() == n,
                lists_uncovered(o, c, revealed@),
                forall|t: int|
                    0 <= t < n ==> #[trigger] res@[t] == 9 || (newly_revealed(o, c, t) && res@[t]
                        == c[t].proximity),
                forall|j: int|
                    0 <= j < k ==> res@[(#[trigger] revealed@[j]).0 as int] == revealed@[j].1,
            decreases revealed@.len() - k,
        {
            let (at, v) = revealed[k];
            proof {
                assert(newly_revealed(o, c, revealed@[k as int].0 as int));
                assert forall|j: int| 0 <= j < k implies (#[trigger] revealed@[j]).0 != at by {
                    assert(revealed@[j] != revealed@[k as int] || j == k);
                }
            }
            res.set(at, v);
            k += 1;
        }
        proof {
            assert forall|t: int| 0 <= t < n implies #[trigger] res@[t] == reveal_values(o, c)[t] by {
                if newly_revealed(o, c, t) {
                    let j = choose|j: int| 0 <= j < revealed@.len() && revealed@[j].0 == t;
                    assert(res@[revealed@[j].0 as int] == revealed@[j].1);
                }
            }
            assert(res@ =~= reveal_values(o, c));
        }
        res
    }

    /// The indices of all mine cells, in increasing order.
    pub fn get_bomb_positions(&self) -> (r: Vec<u16>)
        requires
            self.wf(),
        ensures
            r@ == mine_positions(self.cells@),
            r@.len() == self.mine_count,
    {
        let mut r: Vec<u16> = Vec::new();
        let mut i: usize = 0;
        while i < self.cells.len()
            invariant
                i <= self.cells@.len(),
                r@ == mine_positions(self.cells@.take(i as int)),
            decreases self.cells@.len() - i,
        {
            proof {
                assert(self.cells@.take(i + 1).drop_last() =~= self.cells@.take(i as int));
            }
            if self.cells[i].proximity == MINE {
                r.push(i as u16);
            }
            i += 1;
        }
        proof {
            assert(self.cells@.take(self.cells@.len() as int) =~= self.cells@);
            lemma_mine_positions_len(self.cells@);
        }
        r
    }

    /// Reveals cell `index` and, where it has no mine around it, cascades to
    /// its neighbours; returns each cell revealed with its proximity.
    /// Revealing a cell that is off the board, already revealed or a mine
    /// changes nothing and returns an empty list. The cascade keeps its
    /// pending cells on an explicit stack, so it needs no recursion.
    pub fn reveal_index(&mut self, index: usize) -> (r: Vec<(usize, u8)>)
        requires
            old(self).wf(),
        ensures
            final(self).wf(),
            reveal_step(old(self), final(self), index as int),
            lists_uncovered(old(self).cells@, final(self).cells@, r@),
            final(self).revealed_count == old(self).revealed_count + r@.len(),
            !revealable(old(self).cells@, index as int) ==> r@.len() == 0,
    {
        let ghost o = self.cells@;
        let ghost w = self.dim.0 as int;
        let ghost h = self.dim.1 as int;
        if index >= self.cells.len() || !self.cells[index].hidden || self.cells[index].proximity
            == MINE {
            return Vec::new();
        }
        let proximity = self.cells[index].proximity;
        self.uncover(index);
        let mut result: Vec<(usize, u8)> = Vec::new();
        result.push((index, proximity));
        // Revealed cells with no mine around them whose neighbours may still
        // be hidden.
        let mut pending: Vec<usize> = Vec::new();
        if proximity == 0 {
            pending.push(index);
        }
        proof {
            assert forall|c: int| #[trigger] newly_revealed(o, self.cells@, c) implies c
                == index && exists|k: int| 0 <= k < result@.len() && result@[k].0 == c by {
                assert(result@[0].0 == index);
            }
            assert forall|a: int, b: int|
                #[trigger] newly_revealed(o, self.cells@, a) && self.cells@[a].proximity == 0
                    && #[trigger] adjacent(w, h, a, b) && self.cells@[b].hidden implies pending@.contains(
                a as usize,
            ) by {
                assert(a == index);
                assert(pending@[0] == index);
            }
            assert forall|s: Set<int>| #[trigger]
                closed_region(s, o, w, h) && s.contains(index as int) implies uncovered_within(
                s,
                o,
                self.cells@,
            ) by {
                assert forall|c: int| #[trigger] newly_revealed(o, self.cells@, c) implies s.contains(
                    c,
                ) by {
                    assert(c == index);
                }
            }
        }
        while pending.len() > 0
            invariant
                self.wf(),
                reveal_frame(old(self), self),
                self.revealed_count <= self.cells@.len(),
                o == old(self).cells@,
                w == self.dim.0,
                h == self.dim.1,
                revealable(o, index as int),
                newly_revealed(o, self.cells@, index as int),
                forall|t: int|
                    0 <= t < pending@.len() ==> newly_revealed(
                        o,
                        self.cells@,
                        #[trigger] pending@[t] as int,
                    ) && self.cells@[pending@[t] as int].proximity == 0,
                forall|a: int, b: int|
                    #[trigger] newly_revealed(o, self.cells@, a) && self.cells@[a].proximity == 0
                        && #[trigger] adjacent(w, h, a, b) && self.cells@[b].hidden
                        ==> pending@.contains(a as usize),
                forall|s: Set<int>| #[trigger]
                    closed_region(s, o, w, h) && s.contains(index as int) ==> uncovered_within(
                        s,
                        o,
                        self.cells@,
                    ),
                lists_uncovered(o, self.cells@, result@),
                self.revealed_count == old(self).revealed_count + result@.len(),
            decreases 2 * (self.cells@.len() - self.revealed_count) + pending@.len(),
        {
            let ghost before = pending@;
            let c = pending.pop().unwrap();
            let ghost m0 = 2 * (self.cells@.len() - self.revealed_count) + pending@.len();
            proof {
                assert(newly_revealed(o, self.cells@, c as int));
                assert forall|a: int, b: int|
                    #[trigger] newly_revealed(o, self.cells@, a) && self.cells@[a].proximity == 0
                        && #[trigger] adjacent(w, h, a, b) && self.cells@[b].hidden implies (
                    pending@.contains(a as usize) || a == c) by {
                    assert(before.contains(a as usize));
                    let t = choose|t: int| 0 <= t < before.len() && before[t] == a as usize;
                    if t < pending@.len() {
                        assert(pending@[t] == before[t]);
                    }
                }
                assert forall|t: int| 0 <= t < pending@.len() implies newly_revealed(
                    o,
                    self.cells@,
                    #[trigger] pending@[t] as int,
                ) && self.cells@[pending@[t] as int].proximity == 0 by {
                    assert(pending@[t] == before[t]);
                }
            }
            let (x, y) = self.coord_from_index(c);
            let mut k: usize = 0;
            while k < 8
                invariant
                    self.wf(),
                    reveal_frame(old(self), self),
                    self.revealed_count <= self.cells@.len(),
                    o == old(self).cells@,
                    w == self.dim.0,
                    h == self.dim.1,
                    revealable(o, index as int),
                    newly_revealed(o, self.cells@, index as int),
                    c < self.cells@.len(),
                    newly_revealed(o, self.cells@, c as int),
                    self.cells@[c as int].proximity == 0,
                    x == c % self.dim.0,
                    y == c / self.dim.0,
                    x < self.dim.0,
                    y < self.dim.1,
                    k <= 8,
                    forall|j: int|
                        0 <= j < k && neighbor_on_grid(w, h, x as int, y as int, j)
                            ==> !self.cells@[#[trigger] neighbor_index(
                            w,
                            x as int,
                            y as int,
                            j,
                        )].hidden,
                    forall|t: int|
                        0 <= t < pending@.len() ==> newly_revealed(
                            o,
                            self.cells@,
                            #[trigger] pending@[t] as int,
                        ) && self.cells@[pending@[t] as int].proximity == 0,
                    forall|a: int, b: int|
                        #[trigger] newly_revealed(o, self.cells@, a) && self.cells@[a].proximity
                            == 0 && #[trigger] adjacent(w, h, a, b) && self.cells@[b].hidden ==> (
                        pending@.contains(a as usize) || a == c),
                    forall|s: Set<int>| #[trigger]
                        closed_region(s, o, w, h) && s.contains(index as int)
                            ==> uncovered_within(s, o, self.cells@),
                    lists_uncovered(o, self.cells@, result@),
                    self.revealed_count == old(self).revealed_count + result@.len(),
                    2 * (self.cells@.len() - self.revealed_count) + pending@.len() <= m0,
                decreases 8 - k,
            {
                if let Some(nb) = self.neighbor(x, y, k) {
                    if self.cells[nb].hidden {
                        let ghost c1 = self.cells@;
                        let ghost p1 = pending@;
                        proof {
                            assert(!is_mine(c1[c as int]));
                            lemma_zero_spares_neighbors(
                                mines_of(c1),
                                w,
                                h,
                                c as int,
                                k as int,
                            );
                            lemma_neighbor_adjacent(w, h, c as int, k as int);
                            assert(mines_of(c1)[nb as int] == is_mine(c1[nb as int]));
                            assert(revealable(c1, nb as int));
                        }
                        let p = self.cells[nb].proximity;
                        self.uncover(nb);
                        let ghost c2 = self.cells@;
                        proof {
                            lemma_lists_push(o, c1, c2, result@, nb);
                        }
                        result.push((nb, p));
                        if p == 0 {
                            pending.push(nb);
                        }
                        proof {
                            assert forall|x2: int| #[trigger] newly_revealed(o, c2, x2) implies (
                            newly_revealed(o, c1, x2) || x2 == nb) by {}
                            assert forall|t: int| 0 <= t < p1.len() implies pending@[t] == p1[t] by {}
                            assert forall|a: int, b: int|
                                #[trigger] newly_revealed(o, c2, a) && c2[a].proximity == 0
                                    && #[trigger] adjacent(w, h, a, b) && c2[b].hidden implies (
                                pending@.contains(a as usize) || a == c) by {
                                if a == nb {
                                    assert(pending@[p1.len() as int] == nb);
                                } else {
                                    assert(newly_revealed(o, c1, a));
                                    assert(c1[b].hidden);
                                    if p1.contains(a as usize) {
                                        let t = choose|t: int| 0 <= t < p1.len() && p1[t] == a as usize;
                                        assert(pending@[t] == p1[t]);
                                    }
                                }
                            }
                            assert forall|t: int| 0 <= t < pending@.len() implies newly_revealed(
                                o,
                                c2,
                                #[trigger] pending@[t] as int,
                            ) && c2[pending@[t] as int].proximity == 0 by {
                                if t < p1.len() {
                                    assert(pending@[t] == p1[t]);
                                }
                            }
                            assert forall|s: Set<int>| #[trigger]
                                closed_region(s, o, w, h) && s.contains(
                                    index as int,
                                ) implies uncovered_within(s, o, c2) by {
                                assert(uncovered_within(s, o, c1));
                                assert(s.contains(c as int));
                                assert(o[nb as int].hidden);
                                assert(s.contains(nb as int));
                                assert forall|x2: int| #[trigger]
                                    newly_revealed(o, c2, x2) implies s.contains(x2) by {
                                    if x2 != nb {
                                        assert(newly_revealed(o, c1, x2));
                                    }
                                }
                            }
                            assert forall|j: int|
                                0 <= j <= k && neighbor_on_grid(
                                    w,
                                    h,
                                    x as int,
                                    y as int,
                                    j,
                                ) implies !c2[#[trigger] neighbor_index(
                                w,
                                x as int,
                                y as int,
                                j,
                            )].hidden by {
                                lemma_coords_index(x + offset_x(j), y + offset_y(j), w, h);
                                if j < k {
                                    assert(!c1[neighbor_index(w, x as int, y as int, j)].hidden);
                                }
                            }
                        }
                    }
                }
                k += 1;
            }
            proof {
                assert forall|a: int, b: int|
                    #[trigger] newly_revealed(o, self.cells@, a) && self.cells@[a].proximity == 0
                        && #[trigger] adjacent(w, h, a, b) && self.cells@[b].hidden
                        implies pending@.contains(a as usize) by {
                    if a == c {
                        let j = lemma_adjacent_is_neighbor(w, h, a, b);
                        assert(!self.cells@[neighbor_index(w, x as int, y as int, j)].hidden);
                    }
                }
            }
        }
        proof {
            assert forall|a: int, b: int|
                #[trigger] newly_revealed(o, self.cells@, a) && self.cells@[a].proximity == 0
                    && #[trigger] adjacent(w, h, a, b) implies !self.cells@[b].hidden by {
                if self.cells@[b].hidden {
                    assert(pending@.contains(a as usize));
                }
            }
        }
        result
    }

    /// Marks the revealable cell `index` revealed.
    fn uncover(&mut self, index: usize)
        requires
            old(self).wf(),
            revealable(old(self).cells@, index as int),
        ensures
            final(self).wf(),
            reveal_frame(old(self), final(self)),
            final(self).cells@ == old(self).cells@.update(
                index as int,
                Cell { proximity: old(self).cells@[index as int].proximity, hidden: false },
            ),
            final(self).revealed_count == old(self).revealed_count + 1,
            final(self).revealed_count <= final(self).cells@.len(),
    {
        let ghost o = self.cells@;
        let len = self.cells.len();
        let c = Cell { proximity: self.cells[index].proximity, hidden: false };
        self.cells.set(index, c);
        proof {
            let n = self.cells@;
            assert(mines_of(n) =~= mines_of(o));
            assert(revealed_of(n) =~= revealed_of(o).update(index as int, true));
            assert(!revealed_of(o)[index as int]);
            lemma_count_true_update(revealed_of(o), index as int, true);
            lemma_count_true_bound(revealed_of(n));
            assert(revealed_of(n).len() == n.len());
            assert(proximities_correct(n, self.dim.0 as int, self.dim.1 as int)) by {
                assert forall|i: int|
                    0 <= i < n.len() && !is_mine(#[trigger] n[i]) implies n[i].proximity as nat
                        == neighbor_mines(mines_of(n), self.dim.0 as int, self.dim.1 as int, i) by {
                    assert(!is_mine(o[i]));
                }
            }
            assert forall|i: int| 0 <= i < n.len() && !(#[trigger] n[i]).hidden implies !is_mine(
                n[i],
            ) by {
                if i != index {
                    assert(!o[i].hidden);
                }
            }
        }
        self.revealed_count = self.revealed_count + 1;
    }

    /// The index of the `k`-th neighbour of grid position `(x, y)`, if that
    /// neighbour lies on the board.
    fn neighbor(&self, x: usize, y: usize, k: usize) -> (r: Option<usize>)
        requires
            self.wf(),
            x < self.dim.0,
            y < self.dim.1,
            k < 8,
        ensures
            match r {
                Some(n) => neighbor_on_grid(
                    self.dim.0 as int,
                    self.dim.1 as int,
                    x as int,
                    y as int,
                    k as int,
                ) && n == neighbor_index(self.dim.0 as int, x as int, y as int, k as int) && n
                    < self.cells@.len(),
                None => !neighbor_on_grid(
                    self.dim.0 as int,
                    self.dim.1 as int,
                    x as int,
                    y as int,
                    k as int,
                ),
            },
    {
        let nx: usize = if k == 0 || k == 4 || k == 6 {
            if x == 0 {
                return None;
            }
            x - 1
        } else if k == 1 || k == 5 || k == 7 {
            if x + 1 >= self.dim.0 {
                return None;
            }
            x + 1
        } else {
            x
        };
        let ny: usize = if k == 2 || k == 4 || k == 7 {
            if y == 0 {
                return None;
            }
            y - 1
        } else if k == 3 || k == 5 || k == 6 {
            if y + 1 >= self.dim.1 {
                return None;
            }
            y + 1
        } else {
            y
        };
        let len = self.cells.len();
        proof {
            lemma_coords_index(nx as int, ny as int, self.dim.0 as int, self.dim.1 as int);
        }
        Some(self.ix(nx, ny))
    }

    /// The index of grid position `(i, j)`.
    pub fn ix(&self, i: usize, j: usize) -> (r: usize)
        requires
            i + j * self.dim.0 <= usize::MAX,
        ensures
            r == i + j * self.dim.0,
    {
        i + j * self.dim.0
    }

    /// The grid position `(x, y)` of cell `index`.
    pub fn coord_from_index(&self, index: usize) -> (r: (usize, usize))
        requires
            self.wf(),
            index < self.cells@.len(),
        ensures
            r.0 == index % self.dim.0,
            r.1 == index / self.dim.0,
            r.0 < self.dim.0,
            r.1 < self.dim.1,
    {
        let x = index % self.dim.0;
        let y = index / self.dim.0;
        proof {
            lemma_index_coords(index as int, self.dim.0 as int, self.dim.1 as int);
        }
        (x, y)
    }
}

/// The number of mines around grid position `(x, y)` of the mine layout
/// `mask`.
fn count_neighbor_mines(mask: &Vec<bool>, w: usize, h: usize, x: usize, y: usize) -> (r: u8)
    requires
        mask@.len() == w * h,
        x < w,
        y < h,
    ensures
        r as nat == neighbor_mines(mask@, w as int, h as int, x + y * w),
{
    proof {
        lemma_coords_index(x as int, y as int, w as int, h as int);
    }
    let up = y > 0;
    let down = y + 1 < h;
    let left = x > 0;
    let right = x + 1 < w;
    let mut r: u8 = 0;
    if up && left && mine_cell(mask, w, h, x - 1, y - 1) {
        r = r + 1;
    }
    if up && mine_cell(mask, w, h, x, y - 1) {
        r = r + 1;
    }
    if up && right && mine_cell(mask, w, h, x + 1, y - 1) {
        r = r + 1;
    }
    if left && mine_cell(mask, w, h, x - 1, y) {
        r = r + 1;
    }
    if right && mine_cell(mask, w, h, x + 1, y) {
        r = r + 1;
    }
    if down && left && mine_cell(mask, w, h, x - 1, y + 1) {
        r = r + 1;
    }
    if down && mine_cell(mask, w, h, x, y + 1) {
        r = r + 1;
    }
    if down && right && mine_cell(mask, w, h, x + 1, y + 1) {
        r = r + 1;
    }
    r
}

/// Whether grid position `(x, y)` of the mine layout `mask` holds a mine.
fn mine_cell(mask: &Vec<bool>, w: usize, h: usize, x: usize, y: usize) -> (r: bool)
    requires
        mask@.len() == w * h,
        x < w,
        y < h,
    ensures
        r == (mine_at(mask@, w as int, h as int, x as int, y as int) == 1),
{
    proof {
        lemma_coords_index(x as int, y as int, w as int, h as int);
    }
    let len = mask.len();
    mask[x + y * w]
}

/// Relies on rand's `SliceRandom::shuffle`, driven by `rand::thread_rng`:
/// it only swaps elements, so the result is a permutation of the input.
#[verifier::external_body]
fn shuffle(v: &mut Vec<usize>)
    ensures
        final(v)@.len() == old(v)@.len(),
        final(v)@.to_multiset() == old(v)@.to_multiset(),
{
    v.shuffle(&mut rand::thread_rng());
}

/// There are as many mine positions as mines.
pub proof fn lemma_mine_positions_len(s: Seq<Cell>)
    ensures
        mine_positions(s).len() == count_true(mines_of(s)),
    decreases s.len(),
{
    if s.len() > 0 {
        assert(mines_of(s).drop_last() =~= mines_of(s.drop_last()));
        lemma_mine_positions_len(s.drop_last());
    }
}

/// The `k`-th neighbour of a cell, where it lies on the grid, is adjacent to
/// that cell.
pub proof fn lemma_neighbor_adjacent(w: int, h: int, a: int, k: int)
    requires
        0 < w,
        0 <= a < w * h,
        0 <= k < 8,
        neighbor_on_grid(w, h, a % w, a / w, k),
    ensures
        adjacent(w, h, a, neighbor_index(w, a % w, a / w, k)),
{
    lemma_index_coords(a, w, h);
    lemma_coords_index(a % w + offset_x(k), a / w + offset_y(k), w, h);
}

/// Each cell adjacent to cell `a` is one of its eight neighbours; returns
/// which.
pub proof fn lemma_adjacent_is_neighbor(w: int, h: int, a: int, b: int) -> (k: int)
    requires
        0 < w,
        adjacent(w, h, a, b),
    ensures
        0 <= k < 8,
        neighbor_on_grid(w, h, a % w, a / w, k),
        neighbor_index(w, a % w, a / w, k) == b,
{
    lemma_index_coords(a, w, h);
    lemma_index_coords(b, w, h);
    let dx = b % w - a % w;
    let dy = b / w - a / w;
    let k = if dx == -1 && dy == 0 {
        0
    } else if dx == 1 && dy == 0 {
        1
    } else if dx == 0 && dy == -1 {
        2
    } else if dx == 0 && dy == 1 {
        3
    } else if dx == -1 && dy == -1 {
        4
    } else if dx == 1 && dy == 1 {
        5
    } else if dx == -1 && dy == 1 {
        6
    } else {
        7
    };
    if dx == 0 && dy == 0 {
        assert(b == a);
    }
    k
}

/// A cell with no mine around it has no mine among its neighbours.
pub proof fn lemma_zero_spares_neighbors(mines: Seq<bool>, w: int, h: int, a: int, k: int)
    requires
        0 < w,
        0 <= a < w * h,
        0 <= k < 8,
        mines.len() == w * h,
        neighbor_mines(mines, w, h, a) == 0,
        neighbor_on_grid(w, h, a % w, a / w, k),
    ensures
        !mines[neighbor_index(w, a % w, a / w, k)],
{
    assert(mine_at(mines, w, h, a % w + offset_x(k), a / w + offset_y(k)) == 0);
}

/// Uncovering one more hidden cell `nb` and appending it with its
/// proximity keeps the list exact.
proof fn lemma_lists_push(o: Seq<Cell>, c1: Seq<Cell>, c2: Seq<Cell>, r: Seq<(usize, u8)>, nb: usize)
    requires
        c1.len() == o.len(),
        0 <= nb < o.len(),
        c1[nb as int].hidden,
        forall|i: int| 0 <= i < o.len() ==> (!o[i].hidden ==> !(#[trigger] c1[i]).hidden),
        c2 == c1.update(nb as int, Cell { proximity: c1[nb as int].proximity, hidden: false }),
        lists_uncovered(o, c1, r),
    ensures
        lists_uncovered(o, c2, r.push((nb, c1[nb as int].proximity))),
{
    let r2 = r.push((nb, c1[nb as int].proximity));
    assert(o[nb as int].hidden);
    assert forall|k: int| 0 <= k < r2.len() implies newly_revealed(o, c2, (#[trigger] r2[k]).0 as int)
        && r2[k].1 == c2[r2[k].0 as int].proximity by {
        if k < r.len() {
            assert(r2[k] == r[k]);
            assert(newly_revealed(o, c1, r[k].0 as int));
        }
    }
    assert forall|c: int| #[trigger] newly_revealed(o, c2, c) implies exists|k: int|
        0 <= k < r2.len() && r2[k].0 == c by {
        if c == nb as int {
            assert(r2[r.len() as int].0 == c);
        } else {
            assert(newly_revealed(o, c1, c));
            let k = choose|k: int| 0 <= k < r.len() && r[k].0 == c;
            assert(r2[k] == r[k]);
        }
    }
    assert forall|j: int, k: int|
        0 <= j < r2.len() && 0 <= k < r2.len() && j != k implies (#[trigger] r2[j]).0 != (
        #[trigger] r2[k]).0 by {
        if j < r.len() && k < r.len() {
            assert(r2[j] == r[j] && r2[k] == r[k]);
        } else if j < r.len() {
            assert(r2[j] == r[j]);
            assert(newly_revealed(o, c1, r[j].0 as int));
        } else if k < r.len() {
            assert(r2[k] == r[k]);
            assert(newly_revealed(o, c1, r[k].0 as int));
        }
    }
}

/// The grid position of a cell lies on the grid.
pub proof fn lemma_index_coords(i: int, w: int, h: int)
    requires
        0 <= i < w * h,
        0 < w,
    ensures
        0 <= i % w < w,
        0 <= i / w < h,
        i == i % w + (i / w) * w,
{
    vstd::arithmetic::div_mod::lemma_fundamental_div_mod(i, w);
    vstd::arithmetic::div_mod::lemma_mod_bound(i, w);
    vstd::arithmetic::div_mod::lemma_div_pos_is_pos(i, w);
    assert(w * (i / w) == (i / w) * w) by (nonlinear_arith);
    if i / w >= h {
        assert((i / w) * w >= w * h) by (nonlinear_arith)
            requires i / w >= h, w > 0;
        assert(false);
    }
}

/// The cell at grid position `(x, y)` of a `w` by `h` board has index
/// `x + y * w`, and that index lies on the board.
pub proof fn lemma_coords_index(x: int, y: int, w: int, h: int)
    requires
        0 <= x < w,
        0 <= y < h,
    ensures
        0 <= x + y * w < w * h,
        (x + y * w) % w == x,
        (x + y * w) / w == y,
{
    assert(0 <= y * w <= (h - 1) * w) by (nonlinear_arith)
        requires 0 <= y < h, 0 < w;
    assert((h - 1) * w + w == w * h) by (nonlinear_arith);
    vstd::arithmetic::div_mod::lemma_fundamental_div_mod_converse(x + y * w, w, y, x);
}

proof fn lemma_count_true_bound(s: Seq<bool>)
    ensures
        count_true(s) <= s.len(),
    decreases s.len(),
{
    if s.len() > 0 {
        lemma_count_true_bound(s.drop_last());
    }
}

/// Setting one entry changes the count by what that entry gained or lost.
proof fn lemma_count_true_update(s: Seq<bool>, i: int, v: bool)
    requires
        0 <= i < s.len(),
    ensures
        count_true(s.update(i, v)) + (if s[i] {
            1int
        } else {
            0int
        }) == count_true(s) + (if v {
            1int
        } else {
            0int
        }),
    decreases s.len(),
{
    let t = s.update(i, v);
    if i == s.len() - 1 {
        assert(t.drop_last() =~= s.drop_last());
    } else {
        assert(t.drop_last() =~= s.drop_last().update(i, v));
        lemma_count_true_update(s.drop_last(), i, v);
    }
}

/// Two sequences that are never both true count at most their length
/// together, and exactly that when one of them is true everywhere.
proof fn lemma_count_disjoint(r: Seq<bool>, m: Seq<bool>)
    requires
        r.len() == m.len(),
        forall|i: int| 0 <= i < r.len() ==> !(r[i] && m[i]),
    ensures
        count_true(r) + count_true(m) <= r.len(),
        count_true(r) + count_true(m) == r.len() <==> forall|i: int|
            0 <= i < r.len() ==> r[i] || m[i],
    decreases r.len(),
{
    if r.len() > 0 {
        let r0 = r.drop_last();
        let m0 = m.drop_last();
        lemma_count_disjoint(r0, m0);
        if count_true(r) + count_true(m) == r.len() {
            assert forall|i: int| 0 <= i < r.len() implies r[i] || m[i] by {
                if i < r.len() - 1 {
                    assert(r0[i] == r[i] && m0[i] == m[i]);
                }
            }
        }
        if forall|i: int| 0 <= i < r.len() ==> r[i] || m[i] {
            assert forall|i: int| 0 <= i < r0.len() implies r0[i] || m0[i] by {
                assert(r[i] || m[i]);
            }
        }
    }
}

/// After any reveal at `index`, that cell is no longer revealable: a second
/// reveal at the same index uncovers nothing and returns an empty list.
pub proof fn lemma_reveal_idempotent(b0: &BoardInstance, b1: &BoardInstance, index: int)
    requires
        b0.wf(),
        reveal_step(b0, b1, index),
    ensures
        !revealable(b1.cells@, index),
{
}

/// No revealed cell without a mine around it borders a hidden cell.
pub open spec fn zeros_open(cells: Seq<Cell>, w: int, h: int) -> bool {
    forall|a: int, b: int|
        0 <= a < cells.len() && !(#[trigger] cells[a]).hidden && cells[a].proximity == 0
            && #[trigger] adjacent(w, h, a, b) ==> !cells[b].hidden
}

/// Every reveal keeps revealed zero-proximity cells surrounded by revealed
/// cells; a board fresh from `init`, all hidden, starts that way.
pub proof fn lemma_reveal_keeps_zeros_open(b0: &BoardInstance, b1: &BoardInstance, index: int)
    requires
        b0.wf(),
        zeros_open(b0.cells@, b0.dim.0 as int, b0.dim.1 as int),
        reveal_step(b0, b1, index),
    ensures
        zeros_open(b1.cells@, b1.dim.0 as int, b1.dim.1 as int),
{
    let w = b0.dim.0 as int;
    let h = b0.dim.1 as int;
    assert forall|a: int, b: int|
        0 <= a < b1.cells@.len() && !(#[trigger] b1.cells@[a]).hidden && b1.cells@[a].proximity
            == 0 && #[trigger] adjacent(w, h, a, b) implies !b1.cells@[b].hidden by {
        if !b0.cells@[a].hidden {
            assert(!b0.cells@[b].hidden);
        } else {
            assert(newly_revealed(b0.cells@, b1.cells@, a));
        }
    }
}

/// Revealing a cell with a mine around it uncovers that cell alone.
pub proof fn lemma_reveal_numbered(b0: &BoardInstance, b1: &BoardInstance, index: int)
    requires
        b0.wf(),
        revealable(b0.cells@, index),
        b0.cells@[index].proximity != 0,
        reveal_step(b0, b1, index),
    ensures
        forall|i: int|
            0 <= i < b0.cells@.len() ==> (#[trigger] b1.cells@[i]).hidden == (b0.cells@[i].hidden
                && i != index),
{
    let w = b0.dim.0 as int;
    let h = b0.dim.1 as int;
    let s = set![index];
    assert(closed_region(s, b0.cells@, w, h));
    assert(uncovered_within(s, b0.cells@, b1.cells@));
    assert forall|i: int| 0 <= i < b0.cells@.len() implies (#[trigger] b1.cells@[i]).hidden == (
    b0.cells@[i].hidden && i != index) by {
        if b0.cells@[i].hidden && !b1.cells@[i].hidden {
            assert(newly_revealed(b0.cells@, b1.cells@, i));
        }
    }
}

/// The indices of the mine cells.
pub open spec fn mine_cells(cells: Seq<Cell>) -> Set<int> {
    Set::new(|i: int| 0 <= i < cells.len() && is_mine(cells[i]))
}

/// A board's mine count is the number of its mine cells: true of every
/// well-formed board, so of every board `init` returns.
pub proof fn lemma_mine_count_is_mine_cells(b: &BoardInstance)
    requires
        b.wf(),
    ensures
        mine_cells(b.cells@).finite(),
        mine_cells(b.cells@).len() == b.mine_count,
{
    let m = mines_of(b.cells@);
    lemma_true_set_len(m, m.len() as int);
    assert(m.take(m.len() as int) =~= m);
    assert(mine_cells(b.cells@) =~= Set::new(|i: int| 0 <= i < m.len() && m[i]));
}

/// The cells adjacent to cell `i` that hold a mine.
pub open spec fn mine_neighbors(mines: Seq<bool>, w: int, h: int, i: int) -> Set<int> {
    Set::new(|j: int| adjacent(w, h, i, j) && mines[j])
}

/// On a well-formed board, each safe cell's proximity is the number of
/// adjacent cells that hold a mine.
pub proof fn lemma_proximity_counts_mine_neighbors(b: &BoardInstance, i: int)
    requires
        b.wf(),
        0 <= i < b.cells@.len(),
        !is_mine(b.cells@[i]),
    ensures
        mine_neighbors(mines_of(b.cells@), b.dim.0 as int, b.dim.1 as int, i).finite(),
        b.cells@[i].proximity as nat == mine_neighbors(
            mines_of(b.cells@),
            b.dim.0 as int,
            b.dim.1 as int,
            i,
        ).len(),
{
    let w = b.dim.0 as int;
    let h = b.dim.1 as int;
    let m = mines_of(b.cells@);
    lemma_index_coords(i, w, h);
    let x = i % w;
    let y = i / w;
    lemma_slot_set_len(m, w, h, x, y, 8);
    reveal_with_fuel(slots_sum, 9);
    assert(slot_set(m, w, h, x, y, 8) =~= mine_neighbors(m, w, h, i)) by {
        assert forall|j: int| #[trigger] slot_set(m, w, h, x, y, 8).contains(j) implies mine_neighbors(m, w, h, i).contains(j) by {
            let k = choose|k: int| 0 <= k < 8 && neighbor_on_grid(w, h, x, y, k) && neighbor_index(w, x, y, k) == j && m[j];
            lemma_neighbor_adjacent(w, h, i, k);
        }
        assert forall|j: int| #[trigger] mine_neighbors(m, w, h, i).contains(j) implies slot_set(m, w, h, x, y, 8).contains(j) by {
            let k = lemma_adjacent_is_neighbor(w, h, i, j);
        }
    }
}

/// The mines among the first `k` neighbours of grid position `(x, y)`.
pub open spec fn slots_sum(mines: Seq<bool>, w: int, h: int, x: int, y: int, k: int) -> nat
    decreases k,
{
    if k <= 0 {
        0
    } else {
        slots_sum(mines, w, h, x, y, k - 1) + mine_at(
            mines,
            w,
            h,
            x + offset_x(k - 1),
            y + offset_y(k - 1),
        )
    }
}

/// The indices of the mines among the first `k` neighbours of grid
/// position `(x, y)`.
pub open spec fn slot_set(mines: Seq<bool>, w: int, h: int, x: int, y: int, k: int) -> Set<int> {
    Set::new(
        |j: int|
            exists|t: int|
                0 <= t < k && neighbor_on_grid(w, h, x, y, t) && neighbor_index(w, x, y, t) == j
                    && mines[j],
    )
}

/// Counting the mines among the first `k` neighbours counts a finite set.
proof fn lemma_slot_set_len(mines: Seq<bool>, w: int, h: int, x: int, y: int, k: int)
    requires
        0 <= k <= 8,
        0 <= x < w,
        0 <= y < h,
    ensures
        slot_set(mines, w, h, x, y, k).finite(),
        slot_set(mines, w, h, x, y, k).len() == slots_sum(mines, w, h, x, y, k),
    decreases k,
{
    broadcast use vstd::set::group_set_axioms;

    let t = slot_set(mines, w, h, x, y, k);
    if k == 0 {
        assert(t =~= Set::<int>::empty());
    } else {
        lemma_slot_set_len(mines, w, h, x, y, k - 1);
        let t0 = slot_set(mines, w, h, x, y, k - 1);
        let n = neighbor_index(w, x, y, k - 1);
        if neighbor_on_grid(w, h, x, y, k - 1) {
            lemma_coords_index(x + offset_x(k - 1), y + offset_y(k - 1), w, h);
            if t0.contains(n) {
                let u = choose|u: int|
                    0 <= u < k - 1 && neighbor_on_grid(w, h, x, y, u) && neighbor_index(w, x, y, u)
                        == n && mines[n];
                lemma_coords_index(x + offset_x(u), y + offset_y(u), w, h);
                assert(false);
            }
            if mines[n] {
                assert(t =~= t0.insert(n));
            } else {
                assert(t =~= t0);
            }
        } else {
            assert(t =~= t0);
        }
    }
}

/// The indices below `n` of the `true` entries of `s` form a finite set of
/// as many elements as the first `n` entries count.
proof fn lemma_true_set_len(s: Seq<bool>, n: int)
    requires
        0 <= n <= s.len(),
    ensures
        Set::new(|i: int| 0 <= i < n && s[i]).finite(),
        Set::new(|i: int| 0 <= i < n && s[i]).len() == count_true(s.take(n)),
    decreases n,
{
    broadcast use vstd::set::group_set_axioms;

    let t = Set::new(|i: int| 0 <= i < n && s[i]);
    if n == 0 {
        assert(t =~= Set::<int>::empty());
        assert(s.take(0) =~= Seq::<bool>::empty());
    } else {
        let t0 = Set::new(|i: int| 0 <= i < n - 1 && s[i]);
        lemma_true_set_len(s, n - 1);
        assert(s.take(n).drop_last() =~= s.take(n - 1));
        assert(s.take(n).last() == s[n - 1]);
        assert(!t0.contains(n - 1));
        if s[n - 1] {
            assert(t =~= t0.insert(n - 1));
        } else {
            assert(t =~= t0);
        }
    }
}

/// A sequence that counts some `true` entry has one; returns where.
pub proof fn lemma_some_true(s: Seq<bool>) -> (i: int)
    requires
        count_true(s) > 0,
    ensures
        0 <= i < s.len(),
        s[i],
    decreases s.len(),
{
    if s.last() {
        s.len() - 1
    } else {
        let i = lemma_some_true(s.drop_last());
        i
    }
}

/// A sequence that counts fewer `true` entries than its length has a
/// `false` entry; returns where.
pub proof fn lemma_some_false(s: Seq<bool>) -> (i: int)
    requires
        count_true(s) < s.len(),
    ensures
        0 <= i < s.len(),
        !s[i],
    decreases s.len(),
{
    if !s.last() {
        s.len() - 1
    } else {
        let i = lemma_some_false(s.drop_last());
        i
    }
}

/// A sequence with no `true` entry counts zero.
proof fn lemma_count_true_none(s: Seq<bool>)
    requires
        forall|i: int| 0 <= i < s.len() ==> !s[i],
    ensures
        count_true(s) == 0,
    decreases s.len(),
{
    if s.len() > 0 {
        lemma_count_true_none(s.drop_last());
    }
}

} // verus!
