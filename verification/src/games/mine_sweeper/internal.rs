use vstd::prelude::*;

pub mod cell;
pub mod counting;

use crate::games::mine_sweeper::internal::cell::Cell;
use crate::games::mine_sweeper::internal::counting::count_grid;
use crate::games::mine_sweeper::internal::counting::count_row;
use crate::games::mine_sweeper::internal::counting::flagged_pred;
use crate::games::mine_sweeper::internal::counting::mine_pred;
use crate::games::mine_sweeper::internal::counting::revealed_safe_pred;
use crate::games::mine_sweeper::internal::counting::safe_pred;

verus! {

/// The largest supported field size; the coordinate alphabet has one symbol
/// per row or column, which bounds the grid.
pub const MAX_FIELD_SIZE: usize = 35;

/// The chance, in percent, that a freshly generated cell holds a mine.
pub const MINE_PROBABILITY_PERCENT: u8 = 20;

#[derive(Clone, Copy, Debug, PartialEq, Eq, Structural)]
pub enum MineSweeperError {
    /// the coordinates do not name a cell of the grid
    InvalidCoordinate,
    /// revealing an already revealed or a flagged cell is rejected
    IllegalReveal,
    /// the revealed cell is a mine: the game is over, the caller ends it
    MineTriggered,
    /// flag toggling on a revealed cell is rejected
    IllegalFlag,
}

// The eight neighbour offsets of a cell, in the fixed scan order
// (the row above, then the two sideways neighbours, then the row below).

pub open spec fn off_x(k: int) -> int {
    if k == 0 {
        -1
    } else if k == 1 {
        0
    } else if k == 2 {
        1
    } else if k == 3 {
        -1
    } else if k == 4 {
        1
    } else if k == 5 {
        -1
    } else if k == 6 {
        0
    } else {
        1
    }
}

pub open spec fn off_y(k: int) -> int {
    if k <= 2 {
        -1
    } else if k <= 4 {
        0
    } else {
        1
    }
}

/// The two cells share an edge or a corner.
pub open spec fn adjacent(x1: int, y1: int, x2: int, y2: int) -> bool {
    &&& -1 <= x2 - x1 <= 1
    &&& -1 <= y2 - y1 <= 1
    &&& !(x2 == x1 && y2 == y1)
}

/// The position of the offset `(dx, dy)` in the neighbour scan order.
pub open spec fn offset_index(dx: int, dy: int) -> int {
    if dx == -1 && dy == -1 {
        0
    } else if dx == 0 && dy == -1 {
        1
    } else if dx == 1 && dy == -1 {
        2
    } else if dx == -1 && dy == 0 {
        3
    } else if dx == 1 && dy == 0 {
        4
    } else if dx == -1 && dy == 1 {
        5
    } else if dx == 0 && dy == 1 {
        6
    } else {
        7
    }
}

/// Adjacent cells are exactly the cells reached by one of the eight offsets.
pub proof fn lemma_adjacent_offset(x1: int, y1: int, x2: int, y2: int)
    requires
        adjacent(x1, y1, x2, y2),
    ensures
        0 <= offset_index(x2 - x1, y2 - y1) < 8,
        x2 == x1 + off_x(offset_index(x2 - x1, y2 - y1)),
        y2 == y1 + off_y(offset_index(x2 - x1, y2 - y1)),
{
}

/// How many of the first `k` neighbour offsets of `(x, y)` point at a mine,
/// for an arbitrary description `mine_at` of where the mines lie.
pub open spec fn adj_mines_upto(mine_at: spec_fn(int, int) -> bool, x: int, y: int, k: int) -> nat
    decreases k,
{
    if k <= 0 {
        0
    } else {
        adj_mines_upto(mine_at, x, y, k - 1) + (if mine_at(x + off_x(k - 1), y + off_y(k - 1)) {
            1nat
        } else {
            0nat
        })
    }
}

/// The brute-force neighbour scan: how many of the eight neighbours of
/// `(x, y)` are mines.
pub open spec fn adj_mines(mine_at: spec_fn(int, int) -> bool, x: int, y: int) -> nat {
    adj_mines_upto(mine_at, x, y, 8)
}

pub proof fn lemma_adj_mines_upto_congruent(m1: spec_fn(int, int) -> bool, m2: spec_fn(int, int) -> bool, x: int, y: int, k: int)
    requires
        forall|a: int, b: int| #[trigger] m1(a, b) == m2(a, b),
    ensures
        adj_mines_upto(m1, x, y, k) == adj_mines_upto(m2, x, y, k),
    decreases k,
{
    if k > 0 {
        lemma_adj_mines_upto_congruent(m1, m2, x, y, k - 1);
    }
}

/// A cell with no adjacent mines has no mine behind any of its offsets.
pub proof fn lemma_adj_mines_zero(mine_at: spec_fn(int, int) -> bool, x: int, y: int, k: int)
    requires
        adj_mines_upto(mine_at, x, y, k) == 0,
    ensures
        forall|j: int| 0 <= j < k ==> !mine_at(x + off_x(j), y + off_y(j)),
    decreases k,
{
    if k > 0 {
        lemma_adj_mines_zero(mine_at, x, y, k - 1);
    }
}

/// The first `k` entries of the neighbour list of `(x, y)` on a
/// `size`-by-`size` grid: the scan-order offsets, keeping those that land
/// on the grid.
pub open spec fn adjacent_coords_upto(size: int, x: int, y: int, k: int) -> Seq<(usize, usize)>
    decreases k,
{
    if k <= 0 {
        Seq::empty()
    } else {
        let prev = adjacent_coords_upto(size, x, y, k - 1);
        if 0 <= x + off_x(k - 1) < size && 0 <= y + off_y(k - 1) < size {
            prev.push(((x + off_x(k - 1)) as usize, (y + off_y(k - 1)) as usize))
        } else {
            prev
        }
    }
}

/// The neighbour list of `(x, y)`: the in-bounds cells of the eight
/// offsets, in scan order.
pub open spec fn adjacent_coords(size: int, x: int, y: int) -> Seq<(usize, usize)> {
    adjacent_coords_upto(size, x, y, 8)
}

/// The mine layout described by a grid of booleans; everything outside the
/// grid counts as free of mines.
pub open spec fn bool_grid_mine_at(g: Seq<Seq<bool>>) -> spec_fn(int, int) -> bool {
    |x: int, y: int| 0 <= y < g.len() && 0 <= x < g[y].len() && g[y][x]
}

/// The rows of a grid of booleans as a sequence of sequences.
pub open spec fn bools_view(g: Seq<Vec<bool>>) -> Seq<Seq<bool>> {
    g.map_values(|row: Vec<bool>| row@)
}

/// The rows of a grid of cells as a sequence of sequences.
pub open spec fn cells_view(f: Seq<Vec<Cell>>) -> Seq<Seq<Cell>> {
    f.map_values(|row: Vec<Cell>| row@)
}

/// The index of a coordinate symbol in the fixed alphabet: the nine digits
/// first, then the twenty-six lower-case letters.
pub open spec fn spec_symbol_index(c: char) -> Option<int> {
    if c == '1' {
        Some(0int)
    } else     if c == '2' {
        Some(1int)
    } else     if c == '3' {
        Some(2int)
    } else     if c == '4' {
        Some(3int)
    } else     if c == '5' {
        Some(4int)
    } else     if c == '6' {
        Some(5int)
    } else     if c == '7' {
        Some(6int)
    } else     if c == '8' {
        Some(7int)
    } else     if c == '9' {
        Some(8int)
    } else     if c == 'a' {
        Some(9int)
    } else     if c == 'b' {
        Some(10int)
    } else     if c == 'c' {
        Some(11int)
    } else     if c == 'd' {
        Some(12int)
    } else     if c == 'e' {
        Some(13int)
    } else     if c == 'f' {
        Some(14int)
    } else     if c == 'g' {
        Some(15int)
    } else     if c == 'h' {
        Some(16int)
    } else     if c == 'i' {
        Some(17int)
    } else     if c == 'j' {
        Some(18int)
    } else     if c == 'k' {
        Some(19int)
    } else     if c == 'l' {
        Some(20int)
    } else     if c == 'm' {
        Some(21int)
    } else     if c == 'n' {
        Some(22int)
    } else     if c == 'o' {
        Some(23int)
    } else     if c == 'p' {
        Some(24int)
    } else     if c == 'q' {
        Some(25int)
    } else     if c == 'r' {
        Some(26int)
    } else     if c == 's' {
        Some(27int)
    } else     if c == 't' {
        Some(28int)
    } else     if c == 'u' {
        Some(29int)
    } else     if c == 'v' {
        Some(30int)
    } else     if c == 'w' {
        Some(31int)
    } else     if c == 'x' {
        Some(32int)
    } else     if c == 'y' {
        Some(33int)
    } else     if c == 'z' {
        Some(34int)
    } else {
        None
    }
}

/// Look a coordinate symbol up in the fixed alphabet.
pub fn symbol_index(c: char) -> (r: Option<usize>)
    ensures
        r is Some <==> spec_symbol_index(c) is Some,
        r matches Some(i) ==> spec_symbol_index(c) == Some(i as int),
{
    match c {
        '1' => Some(0),
        '2' => Some(1),
        '3' => Some(2),
        '4' => Some(3),
        '5' => Some(4),
        '6' => Some(5),
        '7' => Some(6),
        '8' => Some(7),
        '9' => Some(8),
        'a' => Some(9),
        'b' => Some(10),
        'c' => Some(11),
        'd' => Some(12),
        'e' => Some(13),
        'f' => Some(14),
        'g' => Some(15),
        'h' => Some(16),
        'i' => Some(17),
        'j' => Some(18),
        'k' => Some(19),
        'l' => Some(20),
        'm' => Some(21),
        'n' => Some(22),
        'o' => Some(23),
        'p' => Some(24),
        'q' => Some(25),
        'r' => Some(26),
        's' => Some(27),
        't' => Some(28),
        'u' => Some(29),
        'v' => Some(30),
        'w' => Some(31),
        'x' => Some(32),
        'y' => Some(33),
        'z' => Some(34),
        _ => None,
    }
}

/// The square minefield: a grid of cells together with the aggregate
/// counters that the game loop queries.
pub struct MineSweeper {
    pub field: Vec<Vec<Cell>>,
    pub size: usize,
    pub mines_count: usize,
    pub revealed_count: usize,
    pub cell_count: usize,
    pub placed_flags: usize,
}

impl MineSweeper {
    /// The grid as a sequence of rows of cells.
    pub open spec fn grid(self) -> Seq<Seq<Cell>> {
        cells_view(self.field@)
    }

    pub open spec fn in_bounds(self, x: int, y: int) -> bool {
        0 <= x < self.size && 0 <= y < self.size
    }

    pub open spec fn at(self, x: int, y: int) -> Cell {
        self.grid()[y][x]
    }

    /// The mine layout of this field, as a predicate on coordinates.
    pub open spec fn mine_at_fn(self) -> spec_fn(int, int) -> bool {
        |x: int, y: int| self.in_bounds(x, y) && self.at(x, y).is_mine
    }

    /// The brute-force neighbour scan on this field's mine layout.
    pub open spec fn spec_adjacent_mines(self, x: int, y: int) -> nat {
        adj_mines(self.mine_at_fn(), x, y)
    }

    pub open spec fn wf_dims(self) -> bool {
        &&& 1 <= self.size <= MAX_FIELD_SIZE
        &&& self.grid().len() == self.size
        &&& forall|y: int| 0 <= y < self.size ==> (#[trigger] self.grid()[y]).len() == self.size
        &&& self.cell_count == self.size * self.size
    }

    /// The aggregate counters agree with what a scan of the grid would give.
    pub open spec fn wf_counts(self) -> bool {
        &&& self.mines_count == count_grid(self.grid(), mine_pred(), self.size as int)
        &&& self.revealed_count == count_grid(self.grid(), revealed_safe_pred(), self.size as int)
        &&& self.placed_flags == count_grid(self.grid(), flagged_pred(), self.size as int)
    }

    /// Every non-mine cell stores the number of mines among its neighbours.
    pub open spec fn wf_adjacency(self) -> bool {
        forall|x: int, y: int|
            self.in_bounds(x, y) && !(#[trigger] self.at(x, y)).is_mine ==> self.at(
                x,
                y,
            ).adjacent_count == self.spec_adjacent_mines(x, y)
    }

    /// Every neighbour of a revealed zero-count safe cell is itself
    /// revealed: a finished cascade leaves nothing behind.
    pub open spec fn wf_cascade_closed(self) -> bool {
        forall|x: int, y: int, x2: int, y2: int|
            self.in_bounds(x, y) && self.in_bounds(x2, y2) && (#[trigger] self.at(
                x,
                y,
            )).is_revealed && !self.at(x, y).is_mine && self.at(x, y).adjacent_count == 0
                && adjacent(x, y, x2, y2) ==> (#[trigger] self.at(x2, y2)).is_revealed
    }

    /// Well-formedness up to the cascade: dimensions, counters and stored
    /// adjacency counts. The reveal operation restores the cascade closure
    /// only when its worklist is empty, so it maintains this part alone
    /// while it runs.
    pub open spec fn wf_core(self) -> bool {
        &&& self.wf_dims()
        &&& self.wf_counts()
        &&& self.wf_adjacency()
    }

    pub open spec fn wf(self) -> bool {
        &&& self.wf_core()
        &&& self.wf_cascade_closed()
    }

    /// Build a field over a given square mine layout: place the cells,
    /// count the mines, and store the neighbour-scan count in every
    /// non-mine cell. Nothing starts revealed or flagged.
    pub fn from_mines(mines: &Vec<Vec<bool>>) -> (r: Self)
        requires
            1 <= mines@.len() <= MAX_FIELD_SIZE,
            forall|i: int| 0 <= i < mines@.len() ==> (#[trigger] mines@[i])@.len() == mines@.len(),
        ensures
            r.wf(),
            r.size == mines@.len(),
            r.cell_count == r.size * r.size,
            r.revealed_count == 0,
            r.placed_flags == 0,
            forall|x: int, y: int| r.in_bounds(x, y) ==> (#[trigger] r.at(x, y)).is_mine == mines@[y]@[x],
            forall|x: int, y: int| r.in_bounds(x, y) ==> !(#[trigger] r.at(x, y)).is_revealed,
            forall|x: int, y: int| r.in_bounds(x, y) ==> !(#[trigger] r.at(x, y)).is_flagged,
    {
        let ghost m = bool_grid_mine_at(bools_view(mines@));
        let size = mines.len();
        let mut field: Vec<Vec<Cell>> = Vec::new();
        let mut mines_count: usize = 0;
        let mut y: usize = 0;
        while y < size
            invariant
                y <= size,
                1 <= size <= MAX_FIELD_SIZE,
                size == mines@.len(),
                forall|i: int| 0 <= i < mines@.len() ==> (#[trigger] mines@[i])@.len() == mines@.len(),
                m == bool_grid_mine_at(bools_view(mines@)),
                field@.len() == y,
                forall|i: int| 0 <= i < y ==> (#[trigger] field@[i])@.len() == size,
                forall|i: int, j: int|
                    0 <= i < y && 0 <= j < size ==> (#[trigger] field@[i]@[j]).is_mine
                        == mines@[i]@[j],
                forall|i: int, j: int|
                    0 <= i < y && 0 <= j < size ==> !(#[trigger] field@[i]@[j]).is_revealed,
                forall|i: int, j: int|
                    0 <= i < y && 0 <= j < size ==> !(#[trigger] field@[i]@[j]).is_flagged,
                forall|i: int, j: int|
                    0 <= i < y && 0 <= j < size && !(#[trigger] field@[i]@[j]).is_mine
                        ==> field@[i]@[j].adjacent_count == adj_mines(m, j, i),
                mines_count == count_grid(cells_view(field@), mine_pred(), y as int),
                mines_count <= y * size,
            decreases size - y,
        {
            let ghost field_prev = field@;
            let ghost mc_prev = mines_count;
            let mut row: Vec<Cell> = Vec::new();
            let mut x: usize = 0;
            while x < size
                invariant
                    x <= size,
                    y < size,
                    1 <= size <= MAX_FIELD_SIZE,
                    size == mines@.len(),
                    forall|i: int| 0 <= i < mines@.len() ==> (#[trigger] mines@[i])@.len() == mines@.len(),
                    m == bool_grid_mine_at(bools_view(mines@)),
                    field@ == field_prev,
                    field@.len() == y,
                    row@.len() == x,
                    forall|j: int| 0 <= j < x ==> (#[trigger] row@[j]).is_mine == mines@[y as int]@[j],
                    forall|j: int| 0 <= j < x ==> !(#[trigger] row@[j]).is_revealed,
                    forall|j: int| 0 <= j < x ==> !(#[trigger] row@[j]).is_flagged,
                    forall|j: int|
                        0 <= j < x && !(#[trigger] row@[j]).is_mine ==> row@[j].adjacent_count
                            == adj_mines(m, j, y as int),
                    mines_count == mc_prev + count_row(row@, mine_pred(), x as int),
                    mc_prev == count_grid(cells_view(field@), mine_pred(), y as int),
                    mc_prev <= y * size,
                    mines_count <= y * size + x,
                decreases size - x,
            {
                let ghost row_prev = row@;
                let is_mine = mines[y][x];
                let mut c = Cell::new(is_mine);
                if is_mine {
                    proof {
                        assert(y * size + x < 1225) by (nonlinear_arith)
                            requires
                                y < size,
                                x < size,
                                size <= 35,
                        ;
                    }
                    mines_count = mines_count + 1;
                } else {
                    let cnt = count_adjacent_mines(mines, x, y);
                    c.set_adjacent_count(cnt);
                }
                row.push(c);
                proof {
                    counting::lemma_count_row_congruent(row@, row_prev, mine_pred(), x as int);
                    assert(count_row(row@, mine_pred(), x as int + 1) == count_row(
                        row_prev,
                        mine_pred(),
                        x as int,
                    ) + (if c.is_mine {
                        1nat
                    } else {
                        0nat
                    }));
                }
                x = x + 1;
            }
            field.push(row);
            proof {
                counting::lemma_count_grid_congruent(
                    cells_view(field@),
                    cells_view(field_prev),
                    mine_pred(),
                    y as int,
                );
                assert(cells_view(field@)[y as int] == row@);
                assert(count_grid(cells_view(field@), mine_pred(), y as int + 1) == count_grid(
                    cells_view(field_prev),
                    mine_pred(),
                    y as int,
                ) + count_row(row@, mine_pred(), size as int));
                assert((y + 1) * size == y * size + size) by (nonlinear_arith);
            }
            y = y + 1;
        }
        proof {
            assert(size * size <= 1225) by (nonlinear_arith)
                requires
                    size <= 35,
            ;
        }
        let cell_count = size * size;
        let r = MineSweeper {
            field,
            size,
            mines_count,
            revealed_count: 0,
            cell_count,
            placed_flags: 0,
        };
        proof {
            counting::lemma_count_grid_none(r.grid(), revealed_safe_pred(), size as int);
            counting::lemma_count_grid_none(r.grid(), flagged_pred(), size as int);
            assert forall|a: int, b: int| #[trigger] m(a, b) == r.mine_at_fn()(a, b) by {
                if 0 <= a < size && 0 <= b < size {
                    assert(r.at(a, b) == r.field@[b]@[a]);
                }
            }
            assert forall|x: int, y: int|
                r.in_bounds(x, y) && !(#[trigger] r.at(x, y)).is_mine implies r.at(
                x,
                y,
            ).adjacent_count == r.spec_adjacent_mines(x, y) by {
                assert(r.at(x, y) == r.field@[y]@[x]);
                lemma_adj_mines_upto_congruent(m, r.mine_at_fn(), x, y, 8);
            }
        }
        r
    }

    /// A cascade path: a chain of adjacent in-bounds cells that starts at
    /// `(sx, sy)` and whose every link but the last is a safe cell with no
    /// adjacent mines. The reveal cascade walks exactly such chains.
    pub open spec fn cascade_path_ok(self, sx: int, sy: int, p: Seq<(int, int)>) -> bool {
        &&& p.len() >= 1
        &&& p[0] == (sx, sy)
        &&& forall|i: int| 0 <= i < p.len() ==> self.in_bounds((#[trigger] p[i]).0, p[i].1)
        &&& forall|i: int|
            0 <= i < p.len() - 1 ==> adjacent((#[trigger] p[i]).0, p[i].1, p[i + 1].0, p[i + 1].1)
        &&& forall|i: int|
            0 <= i < p.len() - 1 ==> !self.at((#[trigger] p[i]).0, p[i].1).is_mine && self.at(
                p[i].0,
                p[i].1,
            ).adjacent_count == 0
    }

    /// The reveal cascade started at `(sx, sy)` can legitimately reach
    /// `(tx, ty)`: some cascade path connects the two cells.
    pub open spec fn cascade_reaches(self, sx: int, sy: int, tx: int, ty: int) -> bool {
        exists|p: Seq<(int, int)>|
            self.cascade_path_ok(sx, sy, p) && (#[trigger] p.last()) == (tx, ty)
    }

    pub proof fn lemma_reaches_self(self, sx: int, sy: int)
        requires
            self.in_bounds(sx, sy),
        ensures
            self.cascade_reaches(sx, sy, sx, sy),
    {
        let p = seq![(sx, sy)];
        assert(self.cascade_path_ok(sx, sy, p));
        assert(p.last() == (sx, sy));
    }

    /// A cascade path may grow by one step out of a safe zero-count cell.
    pub proof fn lemma_reaches_step(self, sx: int, sy: int, cx: int, cy: int, nx: int, ny: int)
        requires
            self.cascade_reaches(sx, sy, cx, cy),
            self.in_bounds(cx, cy),
            self.in_bounds(nx, ny),
            !self.at(cx, cy).is_mine,
            self.at(cx, cy).adjacent_count == 0,
            adjacent(cx, cy, nx, ny),
        ensures
            self.cascade_reaches(sx, sy, nx, ny),
    {
        let p = choose|p: Seq<(int, int)>|
            self.cascade_path_ok(sx, sy, p) && (#[trigger] p.last()) == (cx, cy);
        let q = p.push((nx, ny));
        assert forall|i: int| 0 <= i < q.len() implies self.in_bounds((#[trigger] q[i]).0, q[i].1) by {
            if i < p.len() {
                assert(q[i] == p[i]);
            }
        }
        assert forall|i: int|
            0 <= i < q.len() - 1 implies adjacent(
            (#[trigger] q[i]).0,
            q[i].1,
            q[i + 1].0,
            q[i + 1].1,
        ) by {
            if i < p.len() - 1 {
                assert(q[i] == p[i]);
                assert(q[i + 1] == p[i + 1]);
            } else {
                assert(q[i] == p.last());
                assert(q[i + 1] == (nx, ny));
            }
        }
        assert forall|i: int|
            0 <= i < q.len() - 1 implies !self.at((#[trigger] q[i]).0, q[i].1).is_mine && self.at(
            q[i].0,
            q[i].1,
        ).adjacent_count == 0 by {
            if i < p.len() - 1 {
                assert(q[i] == p[i]);
            } else {
                assert(q[i] == p.last());
            }
        }
        assert(self.cascade_path_ok(sx, sy, q));
        assert(q.last() == (nx, ny));
    }

    /// What a running cascade keeps true between `orig`, the state in which
    /// the reveal of `(x, y)` began, and `cur`, the state it has reached:
    /// nothing but reveals happen, mines stay hidden, and every new reveal
    /// is justified by a cascade path from `(x, y)`.
    spec fn cascade_state_ok(orig: Self, cur: Self, x: int, y: int) -> bool {
        &&& cur.wf_core()
        &&& cur.size == orig.size
        &&& cur.cell_count == orig.cell_count
        &&& cur.mines_count == orig.mines_count
        &&& cur.placed_flags == orig.placed_flags
        &&& cur.revealed_count <= cur.cell_count
        &&& orig.revealed_count < cur.revealed_count
        &&& cur.at(x, y).is_revealed
        &&& forall|a: int, b: int|
            orig.in_bounds(a, b) ==> (#[trigger] cur.at(a, b)).is_mine == orig.at(a, b).is_mine
        &&& forall|a: int, b: int|
            orig.in_bounds(a, b) ==> (#[trigger] cur.at(a, b)).is_flagged == orig.at(
                a,
                b,
            ).is_flagged
        &&& forall|a: int, b: int|
            orig.in_bounds(a, b) ==> (#[trigger] cur.at(a, b)).adjacent_count == orig.at(
                a,
                b,
            ).adjacent_count
        &&& forall|a: int, b: int|
            orig.in_bounds(a, b) && (#[trigger] orig.at(a, b)).is_revealed ==> cur.at(
                a,
                b,
            ).is_revealed
        &&& forall|a: int, b: int|
            orig.in_bounds(a, b) && (#[trigger] orig.at(a, b)).is_mine ==> cur.at(
                a,
                b,
            ).is_revealed == orig.at(a, b).is_revealed
        &&& forall|a: int, b: int|
            orig.in_bounds(a, b) && !orig.at(a, b).is_revealed && (#[trigger] cur.at(
                a,
                b,
            )).is_revealed ==> orig.cascade_reaches(x, y, a, b)
    }

    /// Every entry of the worklist is a revealed safe zero-count cell that
    /// the cascade may legitimately expand from.
    spec fn cascade_stack_ok(orig: Self, cur: Self, x: int, y: int, st: Seq<(usize, usize)>) -> bool {
        forall|i: int|
            0 <= i < st.len() ==> orig.in_bounds((#[trigger] st[i]).0 as int, st[i].1 as int)
                && cur.at(st[i].0 as int, st[i].1 as int).is_revealed && !cur.at(
                st[i].0 as int,
                st[i].1 as int,
            ).is_mine && cur.at(st[i].0 as int, st[i].1 as int).adjacent_count == 0
                && orig.cascade_reaches(x, y, st[i].0 as int, st[i].1 as int)
    }

    /// The cascade closure, allowed to be pending exactly at the cells that
    /// still sit on the worklist.
    spec fn cascade_closed_except(cur: Self, st: Seq<(usize, usize)>) -> bool {
        forall|a: int, b: int|
            cur.in_bounds(a, b) && (#[trigger] cur.at(a, b)).is_revealed && !cur.at(a, b).is_mine
                && cur.at(a, b).adjacent_count == 0 ==> st.contains((a as usize, b as usize)) || (
            forall|a2: int, b2: int|
                cur.in_bounds(a2, b2) && adjacent(a, b, a2, b2) ==> (#[trigger] cur.at(
                    a2,
                    b2,
                )).is_revealed)
    }

    /// Reveal the cell at `(x, y)`.
    ///
    /// Revealing outside the grid, on a revealed or flagged cell, or on a
    /// mine changes nothing and reports which of the three happened; the
    /// mine case is the terminal loss that the caller acts on. Otherwise
    /// the cell is revealed, and when it has no adjacent mines the cascade
    /// walks outward, revealing the connected zero-count region together
    /// with its rim of numbered cells. No mine is ever revealed, and every
    /// newly revealed cell is reachable by a cascade path from `(x, y)`.
    pub fn reveal_at(&mut self, x: usize, y: usize) -> (res: Result<(), MineSweeperError>)
        requires
            old(self).wf(),
        ensures
            final(self).wf(),
            final(self).size == old(self).size,
            final(self).cell_count == old(self).cell_count,
            final(self).mines_count == old(self).mines_count,
            final(self).placed_flags == old(self).placed_flags,
            !old(self).in_bounds(x as int, y as int) ==> res == Err::<(), MineSweeperError>(MineSweeperError::InvalidCoordinate) && *final(self) == *old(self),
            old(self).in_bounds(x as int, y as int) && (old(self).at(x as int, y as int).is_revealed
                || old(self).at(x as int, y as int).is_flagged) ==> res == Err::<(), MineSweeperError>(MineSweeperError::IllegalReveal) && *final(self) == *old(self),
            old(self).in_bounds(x as int, y as int) && !old(self).at(x as int, y as int).is_revealed
                && !old(self).at(x as int, y as int).is_flagged && old(self).at(
                x as int,
                y as int,
            ).is_mine ==> res == Err::<(), MineSweeperError>(MineSweeperError::MineTriggered) && *final(self) == *old(self),
            old(self).in_bounds(x as int, y as int) && !old(self).at(x as int, y as int).is_revealed
                && !old(self).at(x as int, y as int).is_flagged && !old(self).at(
                x as int,
                y as int,
            ).is_mine ==> res == Ok::<(), MineSweeperError>(()),
            res == Ok::<(), MineSweeperError>(()) ==> final(self).at(x as int, y as int).is_revealed
                && final(self).revealed_count > old(self).revealed_count,
            res == Ok::<(), MineSweeperError>(()) ==> forall|a: int, b: int|
                old(self).in_bounds(a, b)
                    ==> (#[trigger] final(self).at(a, b)).is_mine == old(self).at(a, b).is_mine
                    && final(self).at(a, b).is_flagged == old(self).at(a, b).is_flagged
                    && final(self).at(a, b).adjacent_count == old(self).at(a, b).adjacent_count,
            res == Ok::<(), MineSweeperError>(()) ==> forall|a: int, b: int|
                old(self).in_bounds(a, b) && (#[trigger] old(self).at(a, b)).is_revealed
                    ==> final(self).at(a, b).is_revealed,
            res == Ok::<(), MineSweeperError>(()) ==> forall|a: int, b: int|
                old(self).in_bounds(a, b) && (#[trigger] old(self).at(a, b)).is_mine
                    ==> final(self).at(a, b).is_revealed == old(self).at(a, b).is_revealed,
            res == Ok::<(), MineSweeperError>(()) ==> forall|a: int, b: int|
                old(self).in_bounds(a, b) && !old(self).at(a, b).is_revealed
                    && (#[trigger] final(self).at(a, b)).is_revealed
                    ==> old(self).cascade_reaches(x as int, y as int, a, b),
            res == Ok::<(), MineSweeperError>(()) ==> forall|a: int, b: int|
                (#[trigger] old(self).cascade_reaches(x as int, y as int, a, b)) ==> final(self).at(a, b).is_revealed,
            res == Ok::<(), MineSweeperError>(()) && old(self).at(x as int, y as int).adjacent_count
                > 0 ==> final(self).revealed_count == old(self).revealed_count + 1 && (forall|
                a: int,
                b: int,
            |
                old(self).in_bounds(a, b) && !(a == x && b == y)
                    ==> (#[trigger] final(self).at(a, b)) == old(self).at(a, b)),
    {
        if x >= self.size || y >= self.size {
            return Err(MineSweeperError::InvalidCoordinate);
        }
        proof {
            assert(self.grid()[y as int] == self.field@[y as int]@);
            assert(self.grid()[y as int].len() == self.size);
        }
        let c0 = self.field[y][x];
        if c0.is_revealed() || c0.is_flagged() {
            return Err(MineSweeperError::IllegalReveal);
        }
        if c0.is_mine() {
            return Err(MineSweeperError::MineTriggered);
        }
        let ghost orig = *self;
        self.reveal_cell(x, y);
        proof {
            orig.lemma_reaches_self(x as int, y as int);
        }
        if c0.adjacent_count() > 0 {
            proof {
                assert forall|a: int, b: int, a2: int, b2: int|
                    self.in_bounds(a, b) && self.in_bounds(a2, b2) && (#[trigger] self.at(
                        a,
                        b,
                    )).is_revealed && !self.at(a, b).is_mine && self.at(a, b).adjacent_count == 0
                        && adjacent(a, b, a2, b2) implies (#[trigger] self.at(a2, b2)).is_revealed by {
                    assert(!(a == x && b == y));
                    assert(self.at(a, b) == orig.at(a, b));
                    assert(orig.at(a2, b2).is_revealed);
                    if !(a2 == x && b2 == y) {
                        assert(self.at(a2, b2) == orig.at(a2, b2));
                    }
                }
            }
            proof {
                assert forall|a: int, b: int|
                    (#[trigger] orig.cascade_reaches(x as int, y as int, a, b)) implies self.at(
                    a,
                    b,
                ).is_revealed by {
                    let p = choose|p: Seq<(int, int)>|
                        orig.cascade_path_ok(x as int, y as int, p) && (#[trigger] p.last()) == (
                        a,
                        b,
                        );
                    if p.len() == 1 {
                        assert(p.last() == p[0]);
                    } else {
                        assert(orig.at(p[0].0, p[0].1).adjacent_count == 0);
                    }
                }
            }
            return Ok(());
        }
        proof {
            counting::lemma_count_grid_le(
                self.grid(),
                revealed_safe_pred(),
                self.size as int,
                self.size as int,
            );
        }
        self.run_cascade(x, y, Ghost(orig));
        proof {
            assert forall|a: int, b: int|
                (#[trigger] orig.cascade_reaches(x as int, y as int, a, b)) implies self.at(
                a,
                b,
            ).is_revealed by {
                Self::lemma_reaches_transfer(orig, *self, x as int, y as int, a, b);
                self.lemma_cascade_complete(x as int, y as int, a, b);
            }
        }
        Ok(())
    }

    /// Walk the zero-count region outward from `(x, y)` with an explicit
    /// worklist, revealing its border of numbered safe cells on the way,
    /// until the cascade closure holds again.
    fn run_cascade(&mut self, x: usize, y: usize, Ghost(orig): Ghost<MineSweeper>)
        requires
            orig.wf(),
            orig.in_bounds(x as int, y as int),
            !orig.at(x as int, y as int).is_revealed,
            !orig.at(x as int, y as int).is_mine,
            orig.at(x as int, y as int).adjacent_count == 0,
            Self::cascade_state_ok(orig, *old(self), x as int, y as int),
            forall|a: int, b: int|
                orig.in_bounds(a, b) && !(a == x && b == y)
                    ==> (#[trigger] old(self).at(a, b)) == orig.at(a, b),
        ensures
            Self::cascade_state_ok(orig, *final(self), x as int, y as int),
            final(self).wf(),
    {
        let mut stack: Vec<(usize, usize)> = Vec::new();
        stack.push((x, y));
        proof {
            orig.lemma_reaches_self(x as int, y as int);
            assert(stack@[0] == (x, y));
            assert(stack@.contains((x, y)));
            assert forall|a: int, b: int|
                self.in_bounds(a, b) && (#[trigger] self.at(a, b)).is_revealed && !self.at(
                    a,
                    b,
                ).is_mine && self.at(a, b).adjacent_count == 0 && !stack@.contains(
                    (a as usize, b as usize),
                ) implies (forall|a2: int, b2: int|
                self.in_bounds(a2, b2) && adjacent(a, b, a2, b2) ==> (#[trigger] self.at(
                    a2,
                    b2,
                )).is_revealed) by {
                assert(!(a == x && b == y));
                assert(self.at(a, b) == orig.at(a, b));
                assert forall|a2: int, b2: int|
                    self.in_bounds(a2, b2) && adjacent(a, b, a2, b2) implies (#[trigger] self.at(
                    a2,
                    b2,
                )).is_revealed by {
                    assert(orig.at(a2, b2).is_revealed);
                }
            }
        }
        while stack.len() != 0
            invariant
                orig.wf(),
                orig.in_bounds(x as int, y as int),
                !orig.at(x as int, y as int).is_revealed,
                Self::cascade_state_ok(orig, *self, x as int, y as int),
                Self::cascade_stack_ok(orig, *self, x as int, y as int, stack@),
                Self::cascade_closed_except(*self, stack@),
            decreases self.cell_count - self.revealed_count, stack@.len(),
        {
            let ghost stack_before = stack@;
            let top = stack.pop().unwrap();
            proof {
                assert(stack@.push(top) =~= stack_before);
            }
            self.expand_zero_cell(top.0, top.1, &mut stack, Ghost(orig), Ghost(x as int), Ghost(y as int));
        }
        proof {
            assert forall|a: int, b: int, a2: int, b2: int|
                self.in_bounds(a, b) && self.in_bounds(a2, b2) && (#[trigger] self.at(
                    a,
                    b,
                )).is_revealed && !self.at(a, b).is_mine && self.at(a, b).adjacent_count == 0
                    && adjacent(a, b, a2, b2) implies (#[trigger] self.at(a2, b2)).is_revealed by {
                assert(!stack@.contains((a as usize, b as usize)));
            }
        }
    }

    /// One cascade-state step: only the single safe cell `(nx, ny)` was
    /// revealed between `prev` and `cur`, and a cascade path justifies it.
    proof fn lemma_state_ok_step(orig: Self, prev: Self, cur: Self, x: int, y: int, nx: int, ny: int)
        requires
            Self::cascade_state_ok(orig, prev, x, y),
            cur.wf_core(),
            cur.size == prev.size,
            cur.cell_count == prev.cell_count,
            cur.mines_count == prev.mines_count,
            cur.placed_flags == prev.placed_flags,
            cur.revealed_count == prev.revealed_count + 1,
            cur.revealed_count <= cur.cell_count,
            prev.in_bounds(nx, ny),
            !prev.at(nx, ny).is_mine,
            !prev.at(nx, ny).is_revealed,
            forall|a: int, b: int|
                prev.in_bounds(a, b) && !(a == nx && b == ny) ==> (#[trigger] cur.at(a, b))
                    == prev.at(a, b),
            cur.at(nx, ny) == (Cell { is_revealed: true, ..prev.at(nx, ny) }),
            orig.cascade_reaches(x, y, nx, ny),
        ensures
            Self::cascade_state_ok(orig, cur, x, y),
    {
        assert(cur.at(x, y).is_revealed) by {
            if !(x == nx && y == ny) {
                assert(cur.at(x, y) == prev.at(x, y));
            }
        }
        assert forall|a: int, b: int| orig.in_bounds(a, b) implies (#[trigger] cur.at(a, b)).is_mine
            == orig.at(a, b).is_mine && cur.at(a, b).is_flagged == orig.at(a, b).is_flagged && cur.at(
            a,
            b,
        ).adjacent_count == orig.at(a, b).adjacent_count by {
            if !(a == nx && b == ny) {
                assert(cur.at(a, b) == prev.at(a, b));
            }
        }
        assert forall|a: int, b: int|
            orig.in_bounds(a, b) && (#[trigger] orig.at(a, b)).is_revealed implies cur.at(
            a,
            b,
        ).is_revealed by {
            if !(a == nx && b == ny) {
                assert(cur.at(a, b) == prev.at(a, b));
            }
        }
        assert forall|a: int, b: int|
            orig.in_bounds(a, b) && (#[trigger] orig.at(a, b)).is_mine implies cur.at(
            a,
            b,
        ).is_revealed == orig.at(a, b).is_revealed by {
            assert(prev.at(nx, ny).is_mine == orig.at(nx, ny).is_mine);
            assert(!(a == nx && b == ny));
            assert(cur.at(a, b) == prev.at(a, b));
        }
        assert forall|a: int, b: int|
            orig.in_bounds(a, b) && !orig.at(a, b).is_revealed && (#[trigger] cur.at(
                a,
                b,
            )).is_revealed implies orig.cascade_reaches(x, y, a, b) by {
            if !(a == nx && b == ny) {
                assert(cur.at(a, b) == prev.at(a, b));
            }
        }
    }

    /// One cascade-closure step for the same single reveal: every cell that
    /// was closed stays closed, and the revealed cell itself is either
    /// numbered or freshly queued.
    proof fn lemma_closed_except_step(
        prev: Self,
        cur: Self,
        st_prev: Seq<(usize, usize)>,
        st_cur: Seq<(usize, usize)>,
        nx: int,
        ny: int,
    )
        requires
            Self::cascade_closed_except(prev, st_prev),
            cur.size == prev.size,
            prev.in_bounds(nx, ny),
            !prev.at(nx, ny).is_revealed,
            forall|a: int, b: int|
                prev.in_bounds(a, b) && !(a == nx && b == ny) ==> (#[trigger] cur.at(a, b))
                    == prev.at(a, b),
            cur.at(nx, ny) == (Cell { is_revealed: true, ..prev.at(nx, ny) }),
            forall|w: (usize, usize)| st_prev.contains(w) ==> st_cur.contains(w),
            cur.at(nx, ny).adjacent_count == 0 ==> st_cur.contains((nx as usize, ny as usize)),
        ensures
            Self::cascade_closed_except(cur, st_cur),
    {
        assert forall|a: int, b: int|
            cur.in_bounds(a, b) && (#[trigger] cur.at(a, b)).is_revealed && !cur.at(a, b).is_mine
                && cur.at(a, b).adjacent_count == 0 && !st_cur.contains(
                (a as usize, b as usize),
            ) implies (forall|a2: int, b2: int|
            cur.in_bounds(a2, b2) && adjacent(a, b, a2, b2) ==> (#[trigger] cur.at(
                a2,
                b2,
            )).is_revealed) by {
            if a == nx && b == ny {
                assert(st_cur.contains((a as usize, b as usize)));
            } else {
                assert(cur.at(a, b) == prev.at(a, b));
                assert(!st_prev.contains((a as usize, b as usize)));
                assert forall|a2: int, b2: int|
                    cur.in_bounds(a2, b2) && adjacent(a, b, a2, b2) implies (#[trigger] cur.at(
                    a2,
                    b2,
                )).is_revealed by {
                    assert(prev.at(a2, b2).is_revealed);
                    if !(a2 == nx && b2 == ny) {
                        assert(cur.at(a2, b2) == prev.at(a2, b2));
                    }
                }
            }
        }
    }

    /// Reveal every unrevealed neighbour of the revealed zero-count cell
    /// `(cx, cy)`, queueing on the worklist those that themselves count
    /// zero. A zero-count cell has no mine among its neighbours, so every
    /// neighbour may be revealed.
    fn expand_zero_cell(
        &mut self,
        cx: usize,
        cy: usize,
        stack: &mut Vec<(usize, usize)>,
        Ghost(orig): Ghost<MineSweeper>,
        Ghost(x): Ghost<int>,
        Ghost(y): Ghost<int>,
    )
        requires
            orig.wf(),
            orig.in_bounds(x, y),
            !orig.at(x, y).is_revealed,
            Self::cascade_state_ok(orig, *old(self), x, y),
            Self::cascade_stack_ok(orig, *old(self), x, y, old(stack)@),
            Self::cascade_closed_except(*old(self), old(stack)@.push((cx, cy))),
            cx < old(self).size,
            cy < old(self).size,
            old(self).at(cx as int, cy as int).is_revealed,
            !old(self).at(cx as int, cy as int).is_mine,
            old(self).at(cx as int, cy as int).adjacent_count == 0,
        ensures
            Self::cascade_state_ok(orig, *final(self), x, y),
            Self::cascade_stack_ok(orig, *final(self), x, y, final(stack)@),
            Self::cascade_closed_except(*final(self), final(stack)@),
            final(self).cell_count == old(self).cell_count,
            final(self).revealed_count >= old(self).revealed_count,
            final(self).revealed_count == old(self).revealed_count ==> final(stack)@.len() == old(
                stack,
            )@.len(),
    {
        let neighbors = Self::get_adjacent_coord(self.size, cx, cy);
        let mut i: usize = 0;
        while i < neighbors.len()
            invariant
                orig.wf(),
                orig.in_bounds(x, y),
                !orig.at(x, y).is_revealed,
                Self::cascade_state_ok(orig, *self, x, y),
                Self::cascade_stack_ok(orig, *self, x, y, stack@),
                Self::cascade_closed_except(*self, stack@.push((cx, cy))),
                i <= neighbors@.len(),
                cx < self.size,
                cy < self.size,
                self.at(cx as int, cy as int).is_revealed,
                !self.at(cx as int, cy as int).is_mine,
                self.at(cx as int, cy as int).adjacent_count == 0,
                forall|j: int|
                    0 <= j < neighbors@.len() ==> (#[trigger] neighbors@[j]).0 < self.size
                        && neighbors@[j].1 < self.size,
                forall|j: int|
                    0 <= j < neighbors@.len() ==> adjacent(
                        cx as int,
                        cy as int,
                        (#[trigger] neighbors@[j]).0 as int,
                        neighbors@[j].1 as int,
                    ),
                forall|a: int, b: int|
                    0 <= a < self.size && 0 <= b < self.size && adjacent(cx as int, cy as int, a, b)
                        ==> neighbors@.contains((a as usize, b as usize)),
                forall|j: int|
                    0 <= j < i ==> self.at(
                        (#[trigger] neighbors@[j]).0 as int,
                        neighbors@[j].1 as int,
                    ).is_revealed,
                self.revealed_count >= old(self).revealed_count,
                self.revealed_count == old(self).revealed_count ==> stack@.len() == old(stack)@.len(),
                self.cell_count == old(self).cell_count,
            decreases neighbors@.len() - i,
        {
            let nbr = neighbors[i];
            let nx = nbr.0;
            let ny = nbr.1;
            proof {
                assert(adjacent(cx as int, cy as int, nx as int, ny as int));
                lemma_adj_mines_zero(self.mine_at_fn(), cx as int, cy as int, 8);
                lemma_adjacent_offset(cx as int, cy as int, nx as int, ny as int);
                assert(!self.mine_at_fn()(nx as int, ny as int));
                assert(!self.at(nx as int, ny as int).is_mine);
            }
            let nc = self.field[ny][nx];
            if !nc.is_revealed() {
                let ghost prev = *self;
                let ghost stack_prev = stack@;
                self.reveal_cell(nx, ny);
                let pushed_zero = nc.adjacent_count() == 0;
                if pushed_zero {
                    stack.push((nx, ny));
                }
                proof {
                    orig.lemma_reaches_step(x, y, cx as int, cy as int, nx as int, ny as int);
                    counting::lemma_count_grid_le(
                        self.grid(),
                        revealed_safe_pred(),
                        self.size as int,
                        self.size as int,
                    );
                    Self::lemma_state_ok_step(orig, prev, *self, x, y, nx as int, ny as int);
                    assert forall|w: (usize, usize)| stack_prev.contains(w) implies stack@.contains(
                        w,
                    ) by {
                        let k = choose|k: int| 0 <= k < stack_prev.len() && stack_prev[k] == w;
                        assert(stack@[k] == w);
                    }
                    assert forall|w: (usize, usize)| stack_prev.push((cx, cy)).contains(
                        w,
                    ) implies stack@.push((cx, cy)).contains(w) by {
                        let k = choose|k: int|
                            0 <= k < stack_prev.push((cx, cy)).len() && stack_prev.push(
                                (cx, cy),
                            )[k] == w;
                        if k < stack_prev.len() {
                            assert(stack_prev.contains(stack_prev[k]));
                            assert(stack@.contains(stack_prev[k]));
                            let k2 = choose|k2: int| 0 <= k2 < stack@.len() && stack@[k2] == w;
                            assert(stack@.push((cx, cy))[k2] == w);
                        } else {
                            assert(w == (cx, cy));
                            assert(stack@.push((cx, cy)).last() == w);
                        }
                    }
                    if pushed_zero {
                        assert(stack@.last() == (nx, ny));
                        assert(stack@.contains((nx, ny)));
                        assert(stack@.push((cx, cy))[stack@.len() - 1] == (nx, ny));
                        assert(stack@.push((cx, cy)).contains((nx, ny)));
                    }
                    Self::lemma_closed_except_step(
                        prev,
                        *self,
                        stack_prev.push((cx, cy)),
                        stack@.push((cx, cy)),
                        nx as int,
                        ny as int,
                    );
                    assert forall|ii: int| 0 <= ii < stack@.len() implies orig.in_bounds(
                        (#[trigger] stack@[ii]).0 as int,
                        stack@[ii].1 as int,
                    ) && self.at(stack@[ii].0 as int, stack@[ii].1 as int).is_revealed && !self.at(
                        stack@[ii].0 as int,
                        stack@[ii].1 as int,
                    ).is_mine && self.at(stack@[ii].0 as int, stack@[ii].1 as int).adjacent_count
                        == 0 && orig.cascade_reaches(
                        x,
                        y,
                        stack@[ii].0 as int,
                        stack@[ii].1 as int,
                    ) by {
                        let e = stack@[ii];
                        if ii < stack_prev.len() {
                            assert(stack_prev[ii] == e);
                            assert(prev.at(e.0 as int, e.1 as int).is_revealed);
                            assert(!(e.0 as int == nx as int && e.1 as int == ny as int));
                            assert(self.at(e.0 as int, e.1 as int) == prev.at(
                                e.0 as int,
                                e.1 as int,
                            ));
                        } else {
                            assert(e == (nx, ny));
                        }
                    }
                }
            }
            i = i + 1;
        }
        proof {
            assert forall|a: int, b: int|
                self.in_bounds(a, b) && (#[trigger] self.at(a, b)).is_revealed && !self.at(
                    a,
                    b,
                ).is_mine && self.at(a, b).adjacent_count == 0 && !stack@.contains(
                    (a as usize, b as usize),
                ) implies (forall|a2: int, b2: int|
                self.in_bounds(a2, b2) && adjacent(a, b, a2, b2) ==> (#[trigger] self.at(
                    a2,
                    b2,
                )).is_revealed) by {
                if a == cx && b == cy {
                    assert forall|a2: int, b2: int|
                        self.in_bounds(a2, b2) && adjacent(a, b, a2, b2) implies (#[trigger] self.at(
                        a2,
                        b2,
                    )).is_revealed by {
                        assert(neighbors@.contains((a2 as usize, b2 as usize)));
                        let j = choose|j: int|
                            0 <= j < neighbors@.len() && neighbors@[j] == (a2 as usize, b2 as usize);
                        assert(self.at(
                            neighbors@[j].0 as int,
                            neighbors@[j].1 as int,
                        ).is_revealed);
                    }
                } else {
                    assert(!stack@.push((cx, cy)).contains((a as usize, b as usize))) by {
                        if stack@.push((cx, cy)).contains((a as usize, b as usize)) {
                            let k = choose|k: int|
                                0 <= k < stack@.push((cx, cy)).len() && stack@.push((cx, cy))[k]
                                    == (a as usize, b as usize);
                            if k < stack@.len() {
                                assert(stack@[k] == (a as usize, b as usize));
                                assert(stack@.contains((a as usize, b as usize)));
                            } else {
                                assert((a as usize, b as usize) == (cx, cy));
                            }
                        }
                    }
                }
            }
        }
    }

    /// Map two coordinate symbols to grid indices. Symbols outside the
    /// alphabet, or naming a cell beyond this grid, are rejected.
    pub fn find_coord_indices(&self, x: char, y: char) -> (r: Option<(usize, usize)>)
        ensures
            r matches Some(p) ==> spec_symbol_index(x) == Some(p.0 as int) && spec_symbol_index(y)
                == Some(p.1 as int) && p.0 < self.size && p.1 < self.size,
            r is None ==> spec_symbol_index(x) is None || spec_symbol_index(y) is None
                || spec_symbol_index(x)->Some_0 >= self.size || spec_symbol_index(y)->Some_0
                >= self.size,
    {
        let xi = symbol_index(x);
        let yi = symbol_index(y);
        match (xi, yi) {
            (Some(i), Some(j)) => {
                if i < self.size && j < self.size {
                    Some((i, j))
                } else {
                    None
                }
            },
            _ => None,
        }
    }

    /// The state change a successful flag toggle at `(x, y)` makes: the
    /// one cell's flag flips, the flag counter follows it, and everything
    /// else — cells, size and the other counters — stays as it was.
    pub open spec fn toggle_transition(pre: Self, post: Self, x: int, y: int) -> bool {
        &&& post.size == pre.size
        &&& post.cell_count == pre.cell_count
        &&& post.mines_count == pre.mines_count
        &&& post.revealed_count == pre.revealed_count
        &&& post.at(x, y) == (Cell { is_flagged: !pre.at(x, y).is_flagged, ..pre.at(x, y) })
        &&& forall|a: int, b: int|
            pre.in_bounds(a, b) && !(a == x && b == y) ==> (#[trigger] post.at(a, b)) == pre.at(
                a,
                b,
            )
        &&& (pre.at(x, y).is_flagged ==> post.placed_flags + 1 == pre.placed_flags)
        &&& (!pre.at(x, y).is_flagged ==> post.placed_flags == pre.placed_flags + 1)
    }

    /// Toggling the flag of the same unrevealed cell twice is the
    /// identity: the cell, the flag counter and every other cell and
    /// counter return to their original values.
    pub proof fn lemma_toggle_twice_restores(s0: Self, s1: Self, s2: Self, x: int, y: int)
        requires
            s0.in_bounds(x, y),
            Self::toggle_transition(s0, s1, x, y),
            Self::toggle_transition(s1, s2, x, y),
        ensures
            s2.placed_flags == s0.placed_flags,
            s2.revealed_count == s0.revealed_count,
            s2.mines_count == s0.mines_count,
            s2.cell_count == s0.cell_count,
            s2.size == s0.size,
            s2.at(x, y) == s0.at(x, y),
            forall|a: int, b: int| s0.in_bounds(a, b) ==> (#[trigger] s2.at(a, b)) == s0.at(a, b),
    {
        assert forall|a: int, b: int|
            s0.in_bounds(a, b) implies (#[trigger] s2.at(a, b)) == s0.at(a, b) by {
            if a == x && b == y {
                assert(s2.at(x, y) == s0.at(x, y));
            } else {
                assert(s1.at(a, b) == s0.at(a, b));
            }
        }
    }

    /// Toggle the flag on the unrevealed cell at `(x, y)`, adjusting the
    /// flag counter with it. A revealed cell cannot be flagged.
    pub fn toggle_flag(&mut self, x: usize, y: usize) -> (res: Result<(), MineSweeperError>)
        requires
            old(self).wf(),
        ensures
            final(self).wf(),
            final(self).size == old(self).size,
            final(self).cell_count == old(self).cell_count,
            final(self).mines_count == old(self).mines_count,
            final(self).revealed_count == old(self).revealed_count,
            !old(self).in_bounds(x as int, y as int) ==> res == Err::<(), MineSweeperError>(
                MineSweeperError::InvalidCoordinate,
            ) && *final(self) == *old(self),
            old(self).in_bounds(x as int, y as int) && old(self).at(x as int, y as int).is_revealed
                ==> res == Err::<(), MineSweeperError>(MineSweeperError::IllegalFlag)
                && *final(self) == *old(self),
            old(self).in_bounds(x as int, y as int) && !old(self).at(x as int, y as int).is_revealed
                ==> res == Ok::<(), MineSweeperError>(()) && Self::toggle_transition(
                *old(self),
                *final(self),
                x as int,
                y as int,
            ),
    {
        if x >= self.size || y >= self.size {
            return Err(MineSweeperError::InvalidCoordinate);
        }
        proof {
            assert(self.grid()[y as int] == self.field@[y as int]@);
            assert(self.grid()[y as int].len() == self.size);
        }
        let ghost prev = *self;
        let mut c = self.field[y][x];
        if c.is_revealed() {
            return Err(MineSweeperError::IllegalFlag);
        }
        let was_flagged: bool;
        {
            let flagged = c.is_flagged_mut();
            was_flagged = *flagged;
            if was_flagged {
                *flagged = false;
            } else {
                *flagged = true;
            }
        }
        proof {
            counting::lemma_count_grid_update_cell(
                prev.grid(),
                mine_pred(),
                prev.size as int,
                x as int,
                y as int,
                c,
            );
            counting::lemma_count_grid_update_cell(
                prev.grid(),
                revealed_safe_pred(),
                prev.size as int,
                x as int,
                y as int,
                c,
            );
            counting::lemma_count_grid_update_cell(
                prev.grid(),
                flagged_pred(),
                prev.size as int,
                x as int,
                y as int,
                c,
            );
            counting::lemma_count_grid_le(
                prev.grid(),
                flagged_pred(),
                prev.size as int,
                prev.size as int,
            );
            assert(prev.size * prev.size <= 1225) by (nonlinear_arith)
                requires
                    prev.size <= 35,
            ;
        }
        self.set_cell(x, y, c);
        if was_flagged {
            self.placed_flags = self.placed_flags - 1;
        } else {
            self.placed_flags = self.placed_flags + 1;
        }
        proof {
            let g = self.grid();
            assert forall|i: int| 0 <= i < self.size implies (#[trigger] g[i]).len() == self.size by {
                if i != y {
                    assert(g[i] == prev.grid()[i]);
                }
            }
            assert forall|a: int, b: int|
                self.in_bounds(a, b) && !(a == x && b == y) implies (#[trigger] self.at(a, b))
                == prev.at(a, b) by {
                if b != y {
                    assert(g[b] == prev.grid()[b]);
                }
            }
            assert forall|a: int, b: int| #[trigger] self.mine_at_fn()(a, b) == prev.mine_at_fn()(
                a,
                b,
            ) by {
                if self.in_bounds(a, b) {
                    if !(a == x && b == y) {
                        assert(self.at(a, b) == prev.at(a, b));
                    }
                }
            }
            assert forall|a: int, b: int|
                self.in_bounds(a, b) && !(#[trigger] self.at(a, b)).is_mine implies self.at(
                a,
                b,
            ).adjacent_count == self.spec_adjacent_mines(a, b) by {
                lemma_adj_mines_upto_congruent(self.mine_at_fn(), prev.mine_at_fn(), a, b, 8);
                if !(a == x && b == y) {
                    assert(self.at(a, b) == prev.at(a, b));
                }
            }
            assert forall|a: int, b: int, a2: int, b2: int|
                self.in_bounds(a, b) && self.in_bounds(a2, b2) && (#[trigger] self.at(
                    a,
                    b,
                )).is_revealed && !self.at(a, b).is_mine && self.at(a, b).adjacent_count == 0
                    && adjacent(a, b, a2, b2) implies (#[trigger] self.at(a2, b2)).is_revealed by {
                if !(a == x && b == y) {
                    assert(self.at(a, b) == prev.at(a, b));
                }
                assert(prev.at(a, b).is_revealed && !prev.at(a, b).is_mine && prev.at(
                    a,
                    b,
                ).adjacent_count == 0);
                assert(prev.at(a2, b2).is_revealed);
                if !(a2 == x && b2 == y) {
                    assert(self.at(a2, b2) == prev.at(a2, b2));
                }
            }
        }
        Ok(())
    }

    /// The game is won exactly when every safe cell has been revealed;
    /// flags play no part in the decision.
    pub fn is_won(&self) -> (r: bool)
        requires
            self.wf(),
        ensures
            r == (self.revealed_count + self.mines_count == self.cell_count),
    {
        proof {
            counting::lemma_count_grid_le(
                self.grid(),
                revealed_safe_pred(),
                self.size as int,
                self.size as int,
            );
            counting::lemma_count_grid_le(
                self.grid(),
                mine_pred(),
                self.size as int,
                self.size as int,
            );
            assert(self.size * self.size <= 1225) by (nonlinear_arith)
                requires
                    self.size <= 35,
            ;
        }
        self.revealed_count + self.mines_count == self.cell_count
    }

    /// The winning equation `revealed_count + mines_count == cell_count`
    /// holds exactly when every safe cell is revealed, whatever the flags
    /// say: flagging moves neither side of it.
    pub proof fn lemma_won_iff_all_safe_revealed(self)
        requires
            self.wf(),
        ensures
            (self.revealed_count + self.mines_count == self.cell_count) <==> (forall|x: int, y: int|
                self.in_bounds(x, y) && !(#[trigger] self.at(x, y)).is_mine ==> self.at(
                    x,
                    y,
                ).is_revealed),
    {
        let g = self.grid();
        let n = self.size as int;
        counting::lemma_count_grid_partition(g, mine_pred(), safe_pred(), n, n);
        counting::lemma_count_grid_le_pred(g, revealed_safe_pred(), safe_pred(), n);
        if self.revealed_count + self.mines_count == self.cell_count {
            counting::lemma_count_grid_eq_pred(g, revealed_safe_pred(), safe_pred(), n);
            assert forall|x: int, y: int|
                self.in_bounds(x, y) && !(#[trigger] self.at(x, y)).is_mine implies self.at(
                x,
                y,
            ).is_revealed by {
                assert(self.at(x, y) == g[y][x]);
                assert(safe_pred()(g[y][x]));
                assert(revealed_safe_pred()(g[y][x]));
            }
        }
        if forall|x: int, y: int|
            self.in_bounds(x, y) && !(#[trigger] self.at(x, y)).is_mine ==> self.at(
                x,
                y,
            ).is_revealed {
            assert forall|i: int, j: int|
                0 <= i < n && 0 <= j < g[i].len() && safe_pred()(
                    #[trigger] g[i][j],
                ) implies revealed_safe_pred()(g[i][j]) by {
                assert(self.at(j, i) == g[i][j]);
                assert(!self.at(j, i).is_mine);
                assert(self.at(j, i).is_revealed);
            }
            counting::lemma_count_grid_le_pred(g, safe_pred(), revealed_safe_pred(), n);
        }
    }

    /// The sum of the stored adjacency counts over the non-mine cells of
    /// the first `n` cells of row `y`.
    pub open spec fn sum_stored_row(self, y: int, n: int) -> nat
        decreases n,
    {
        if n <= 0 {
            0
        } else {
            self.sum_stored_row(y, n - 1) + (if !self.at(n - 1, y).is_mine {
                self.at(n - 1, y).adjacent_count as nat
            } else {
                0nat
            })
        }
    }

    /// The same sum over the first `m` rows of the grid.
    pub open spec fn sum_stored(self, m: int) -> nat
        decreases m,
    {
        if m <= 0 {
            0
        } else {
            self.sum_stored(m - 1) + self.sum_stored_row(m - 1, self.size as int)
        }
    }

    /// The sum of an independent brute-force neighbour scan over the
    /// non-mine cells of the first `n` cells of row `y`.
    pub open spec fn sum_scan_row(self, y: int, n: int) -> nat
        decreases n,
    {
        if n <= 0 {
            0
        } else {
            self.sum_scan_row(y, n - 1) + (if !self.at(n - 1, y).is_mine {
                self.spec_adjacent_mines(n - 1, y)
            } else {
                0nat
            })
        }
    }

    /// The same scan sum over the first `m` rows of the grid.
    pub open spec fn sum_scan(self, m: int) -> nat
        decreases m,
    {
        if m <= 0 {
            0
        } else {
            self.sum_scan(m - 1) + self.sum_scan_row(m - 1, self.size as int)
        }
    }

    proof fn lemma_sum_row_matches_scan(self, y: int, n: int)
        requires
            self.wf(),
            0 <= y < self.size,
            n <= self.size,
        ensures
            self.sum_stored_row(y, n) == self.sum_scan_row(y, n),
        decreases n,
    {
        if n > 0 {
            self.lemma_sum_row_matches_scan(y, n - 1);
        }
    }

    /// The sum of `adjacent_count` over all non-mine cells matches the
    /// same sum computed by an independent brute-force neighbour scan:
    /// each stored count equals its scan, so the totals agree.
    pub proof fn lemma_sum_matches_scan(self, m: int)
        requires
            self.wf(),
            m <= self.size,
        ensures
            self.sum_stored(m) == self.sum_scan(m),
        decreases m,
    {
        if m > 0 {
            self.lemma_sum_matches_scan(m - 1);
            self.lemma_sum_row_matches_scan(m - 1, self.size as int);
        }
    }

    /// Every non-mine cell's stored count equals an independent
    /// brute-force scan of its neighbours.
    pub proof fn lemma_adjacent_counts_match_scan(self)
        requires
            self.wf(),
        ensures
            forall|x: int, y: int|
                self.in_bounds(x, y) && !(#[trigger] self.at(x, y)).is_mine ==> self.at(
                    x,
                    y,
                ).adjacent_count == self.spec_adjacent_mines(x, y),
    {
    }

    /// How many flags remain against the mine total; negative when more
    /// flags stand than there are mines.
    pub fn remaining_flags(&self) -> (r: i64)
        requires
            self.wf(),
        ensures
            r == self.mines_count - self.placed_flags,
    {
        proof {
            counting::lemma_count_grid_le(
                self.grid(),
                mine_pred(),
                self.size as int,
                self.size as int,
            );
            counting::lemma_count_grid_le(
                self.grid(),
                flagged_pred(),
                self.size as int,
                self.size as int,
            );
            assert(self.size * self.size <= 1225) by (nonlinear_arith)
                requires
                    self.size <= 35,
            ;
        }
        self.mines_count as i64 - self.placed_flags as i64
    }

    /// Reveal one mine cell for the final display; no counter moves, since
    /// the revealed counter tracks safe cells alone.
    fn reveal_mine_cell(&mut self, x: usize, y: usize)
        requires
            old(self).wf_core(),
            old(self).in_bounds(x as int, y as int),
            old(self).at(x as int, y as int).is_mine,
        ensures
            final(self).wf_core(),
            final(self).size == old(self).size,
            final(self).cell_count == old(self).cell_count,
            final(self).mines_count == old(self).mines_count,
            final(self).placed_flags == old(self).placed_flags,
            final(self).revealed_count == old(self).revealed_count,
            forall|a: int, b: int|
                old(self).in_bounds(a, b) && !(a == x && b == y) ==> (#[trigger] final(self).at(
                    a,
                    b,
                )) == old(self).at(a, b),
            final(self).at(x as int, y as int) == (Cell {
                is_revealed: true,
                ..old(self).at(x as int, y as int)
            }),
    {
        let ghost prev = *self;
        proof {
            assert(self.grid()[y as int] == self.field@[y as int]@);
            assert(self.grid()[y as int].len() == self.size);
        }
        let mut c = self.field[y][x];
        c.mark_revealed();
        proof {
            counting::lemma_count_grid_update_cell(
                prev.grid(),
                mine_pred(),
                prev.size as int,
                x as int,
                y as int,
                c,
            );
            counting::lemma_count_grid_update_cell(
                prev.grid(),
                revealed_safe_pred(),
                prev.size as int,
                x as int,
                y as int,
                c,
            );
            counting::lemma_count_grid_update_cell(
                prev.grid(),
                flagged_pred(),
                prev.size as int,
                x as int,
                y as int,
                c,
            );
        }
        self.set_cell(x, y, c);
        proof {
            let g = self.grid();
            assert forall|i: int| 0 <= i < self.size implies (#[trigger] g[i]).len() == self.size by {
                if i != y {
                    assert(g[i] == prev.grid()[i]);
                }
            }
            assert forall|a: int, b: int|
                self.in_bounds(a, b) && !(a == x && b == y) implies (#[trigger] self.at(a, b))
                == prev.at(a, b) by {
                if b != y {
                    assert(g[b] == prev.grid()[b]);
                }
            }
            assert forall|a: int, b: int| #[trigger] self.mine_at_fn()(a, b) == prev.mine_at_fn()(
                a,
                b,
            ) by {
                if self.in_bounds(a, b) {
                    if !(a == x && b == y) {
                        assert(self.at(a, b) == prev.at(a, b));
                    }
                }
            }
            assert forall|a: int, b: int|
                self.in_bounds(a, b) && !(#[trigger] self.at(a, b)).is_mine implies self.at(
                a,
                b,
            ).adjacent_count == self.spec_adjacent_mines(a, b) by {
                lemma_adj_mines_upto_congruent(self.mine_at_fn(), prev.mine_at_fn(), a, b, 8);
                if !(a == x && b == y) {
                    assert(self.at(a, b) == prev.at(a, b));
                }
            }
        }
    }

    /// Reveal every mine for the final display after a loss; safe cells
    /// and all counters stay as they were.
    pub fn reveal_all_mines(&mut self)
        requires
            old(self).wf(),
        ensures
            final(self).wf(),
            final(self).size == old(self).size,
            final(self).cell_count == old(self).cell_count,
            final(self).mines_count == old(self).mines_count,
            final(self).revealed_count == old(self).revealed_count,
            final(self).placed_flags == old(self).placed_flags,
            forall|a: int, b: int|
                old(self).in_bounds(a, b) && (#[trigger] old(self).at(a, b)).is_mine ==> final(self).at(a, b) == (Cell { is_revealed: true, ..old(self).at(a, b) }),
            forall|a: int, b: int|
                old(self).in_bounds(a, b) && !(#[trigger] old(self).at(a, b)).is_mine ==> final(self).at(a, b) == old(self).at(a, b),
    {
        let ghost orig = *self;
        let size = self.size;
        let mut y: usize = 0;
        while y < size
            invariant
                y <= size,
                size == orig.size,
                orig.wf(),
                self.wf_core(),
                self.size == orig.size,
                self.cell_count == orig.cell_count,
                self.mines_count == orig.mines_count,
                self.revealed_count == orig.revealed_count,
                self.placed_flags == orig.placed_flags,
                forall|a: int, b: int|
                    orig.in_bounds(a, b) && b < y && (#[trigger] orig.at(a, b)).is_mine
                        ==> self.at(a, b) == (Cell { is_revealed: true, ..orig.at(a, b) }),
                forall|a: int, b: int|
                    orig.in_bounds(a, b) && (b >= y || !(#[trigger] orig.at(a, b)).is_mine)
                        ==> self.at(a, b) == orig.at(a, b),
            decreases size - y,
        {
            let mut x: usize = 0;
            while x < size
                invariant
                    x <= size,
                    y < size,
                    size == orig.size,
                    orig.wf(),
                    self.wf_core(),
                    self.size == orig.size,
                    self.cell_count == orig.cell_count,
                    self.mines_count == orig.mines_count,
                    self.revealed_count == orig.revealed_count,
                    self.placed_flags == orig.placed_flags,
                    forall|a: int, b: int|
                        orig.in_bounds(a, b) && (b < y || (b == y && a < x)) && (#[trigger] orig.at(
                            a,
                            b,
                        )).is_mine ==> self.at(a, b) == (Cell {
                            is_revealed: true,
                            ..orig.at(a, b)
                        }),
                    forall|a: int, b: int|
                        orig.in_bounds(a, b) && (b > y || (b == y && a >= x) || !(#[trigger] orig.at(
                            a,
                            b,
                        )).is_mine) ==> self.at(a, b) == orig.at(a, b),
                decreases size - x,
            {
                proof {
                    assert(self.grid()[y as int] == self.field@[y as int]@);
                    assert(self.grid()[y as int].len() == self.size);
                }
                let c = self.field[y][x];
                if c.is_mine() {
                    self.reveal_mine_cell(x, y);
                }
                x = x + 1;
            }
            y = y + 1;
        }
        proof {
            assert forall|a: int, b: int, a2: int, b2: int|
                self.in_bounds(a, b) && self.in_bounds(a2, b2) && (#[trigger] self.at(
                    a,
                    b,
                )).is_revealed && !self.at(a, b).is_mine && self.at(a, b).adjacent_count == 0
                    && adjacent(a, b, a2, b2) implies (#[trigger] self.at(a2, b2)).is_revealed by {
                assert(self.at(a, b) == orig.at(a, b));
                assert(orig.at(a2, b2).is_revealed);
                if !orig.at(a2, b2).is_mine {
                    assert(self.at(a2, b2) == orig.at(a2, b2));
                }
            }
        }
    }


    /// A cascade path carries over between states that agree on bounds,
    /// mines and adjacency counts; reveals and flags play no part in it.
    proof fn lemma_reaches_transfer(s1: Self, s2: Self, sx: int, sy: int, tx: int, ty: int)
        requires
            s1.cascade_reaches(sx, sy, tx, ty),
            s2.size == s1.size,
            forall|a: int, b: int|
                s1.in_bounds(a, b) ==> (#[trigger] s2.at(a, b)).is_mine == s1.at(a, b).is_mine
                    && s2.at(a, b).adjacent_count == s1.at(a, b).adjacent_count,
        ensures
            s2.cascade_reaches(sx, sy, tx, ty),
    {
        let p = choose|p: Seq<(int, int)>|
            s1.cascade_path_ok(sx, sy, p) && (#[trigger] p.last()) == (tx, ty);
        assert forall|i: int|
            0 <= i < p.len() - 1 implies !s2.at((#[trigger] p[i]).0, p[i].1).is_mine && s2.at(
            p[i].0,
            p[i].1,
        ).adjacent_count == 0 by {
            assert(s1.in_bounds(p[i].0, p[i].1));
        }
        assert(s2.cascade_path_ok(sx, sy, p));
        assert(p.last() == (tx, ty));
    }

    /// Walk a cascade path through a closed state: every link is revealed
    /// because each one's predecessor is a revealed zero-count cell.
    proof fn lemma_path_revealed(self, sx: int, sy: int, p: Seq<(int, int)>, i: int)
        requires
            self.wf(),
            self.in_bounds(sx, sy),
            self.at(sx, sy).is_revealed,
            self.cascade_path_ok(sx, sy, p),
            0 <= i < p.len(),
        ensures
            self.at(p[i].0, p[i].1).is_revealed,
        decreases i,
    {
        if i > 0 {
            self.lemma_path_revealed(sx, sy, p, i - 1);
            assert(self.at(p[i - 1].0, p[i - 1].1).is_revealed);
            assert(!self.at(p[i - 1].0, p[i - 1].1).is_mine);
            assert(self.at(p[i - 1].0, p[i - 1].1).adjacent_count == 0);
            assert(adjacent(p[i - 1].0, p[i - 1].1, p[i].0, p[i].1));
            assert(self.at(p[i].0, p[i].1).is_revealed);
        }
    }

    /// In a well-formed state, a finished cascade has reached everything
    /// it could: every cell a cascade path connects to a revealed cell is
    /// itself revealed.
    pub proof fn lemma_cascade_complete(self, sx: int, sy: int, tx: int, ty: int)
        requires
            self.wf(),
            self.in_bounds(sx, sy),
            self.at(sx, sy).is_revealed,
            self.cascade_reaches(sx, sy, tx, ty),
        ensures
            self.at(tx, ty).is_revealed,
    {
        let p = choose|p: Seq<(int, int)>|
            self.cascade_path_ok(sx, sy, p) && (#[trigger] p.last()) == (tx, ty);
        self.lemma_path_revealed(sx, sy, p, p.len() - 1);
    }

    /// Write one cell of the grid, leaving every counter as it was.
    fn set_cell(&mut self, x: usize, y: usize, c: Cell)
        requires
            (y as int) < old(self).grid().len(),
            (x as int) < old(self).grid()[y as int].len(),
        ensures
            final(self).grid() == old(self).grid().update(
                y as int,
                old(self).grid()[y as int].update(x as int, c),
            ),
            final(self).size == old(self).size,
            final(self).mines_count == old(self).mines_count,
            final(self).revealed_count == old(self).revealed_count,
            final(self).cell_count == old(self).cell_count,
            final(self).placed_flags == old(self).placed_flags,
    {
        self.field[y][x] = c;
        proof {
            assert(self.grid() =~~= old(self).grid().update(
                y as int,
                old(self).grid()[y as int].update(x as int, c),
            ));
        }
    }

    /// Mark one unrevealed safe cell revealed and move the revealed counter
    /// with it; no other cell and no other counter changes.
    fn reveal_cell(&mut self, x: usize, y: usize)
        requires
            old(self).wf_core(),
            old(self).in_bounds(x as int, y as int),
            !old(self).at(x as int, y as int).is_revealed,
            !old(self).at(x as int, y as int).is_mine,
        ensures
            final(self).wf_core(),
            final(self).size == old(self).size,
            final(self).cell_count == old(self).cell_count,
            final(self).mines_count == old(self).mines_count,
            final(self).placed_flags == old(self).placed_flags,
            final(self).revealed_count == old(self).revealed_count + 1,
            forall|a: int, b: int|
                old(self).in_bounds(a, b) && !(a == x && b == y) ==> (#[trigger] final(self).at(
                    a,
                    b,
                )) == old(self).at(a, b),
            final(self).at(x as int, y as int) == (Cell {
                is_revealed: true,
                ..old(self).at(x as int, y as int)
            }),
    {
        let ghost prev = *self;
        let mut c = self.field[y][x];
        c.mark_revealed();
        proof {
            counting::lemma_count_grid_le(
                prev.grid(),
                revealed_safe_pred(),
                prev.size as int,
                prev.size as int,
            );
            assert(prev.size * prev.size <= 1225) by (nonlinear_arith)
                requires
                    prev.size <= 35,
            ;
            counting::lemma_count_grid_update_cell(
                prev.grid(),
                mine_pred(),
                prev.size as int,
                x as int,
                y as int,
                c,
            );
            counting::lemma_count_grid_update_cell(
                prev.grid(),
                revealed_safe_pred(),
                prev.size as int,
                x as int,
                y as int,
                c,
            );
            counting::lemma_count_grid_update_cell(
                prev.grid(),
                flagged_pred(),
                prev.size as int,
                x as int,
                y as int,
                c,
            );
        }
        self.set_cell(x, y, c);
        self.revealed_count = self.revealed_count + 1;
        proof {
            let g = self.grid();
            assert forall|i: int| 0 <= i < self.size implies (#[trigger] g[i]).len() == self.size by {
                if i != y {
                    assert(g[i] == prev.grid()[i]);
                }
            }
            assert forall|a: int, b: int|
                self.in_bounds(a, b) && !(a == x && b == y) implies (#[trigger] self.at(a, b))
                == prev.at(a, b) by {
                if b != y {
                    assert(g[b] == prev.grid()[b]);
                }
            }
            assert forall|a: int, b: int| #[trigger] self.mine_at_fn()(a, b) == prev.mine_at_fn()(
                a,
                b,
            ) by {
                if self.in_bounds(a, b) {
                    if !(a == x && b == y) {
                        assert(self.at(a, b) == prev.at(a, b));
                    }
                }
            }
            assert forall|a: int, b: int|
                self.in_bounds(a, b) && !(#[trigger] self.at(a, b)).is_mine implies self.at(
                a,
                b,
            ).adjacent_count == self.spec_adjacent_mines(a, b) by {
                lemma_adj_mines_upto_congruent(self.mine_at_fn(), prev.mine_at_fn(), a, b, 8);
                if !(a == x && b == y) {
                    assert(self.at(a, b) == prev.at(a, b));
                }
            }
        }
    }

    /// The coordinates of every cell adjacent to `(x, y)` that lies on a
    /// `size`-by-`size` grid: the eight neighbours in scan order, with
    /// those outside the grid left out rather than wrapped.
    pub fn get_adjacent_coord(size: usize, x: usize, y: usize) -> (r: Vec<(usize, usize)>)
        requires
            size <= MAX_FIELD_SIZE,
            x < size,
            y < size,
        ensures
            r@ == adjacent_coords(size as int, x as int, y as int),
            r@.len() <= 8,
            forall|i: int, j: int| 0 <= i < j < r@.len() ==> r@[i] != r@[j],
            forall|i: int| 0 <= i < r@.len() ==> (#[trigger] r@[i]).0 < size && r@[i].1 < size,
            forall|i: int|
                0 <= i < r@.len() ==> adjacent(
                    x as int,
                    y as int,
                    (#[trigger] r@[i]).0 as int,
                    r@[i].1 as int,
                ),
            forall|a: int, b: int|
                0 <= a < size && 0 <= b < size && adjacent(x as int, y as int, a, b)
                    ==> r@.contains((a as usize, b as usize)),
    {
        let mut r: Vec<(usize, usize)> = Vec::new();
        let ghost mut idxs: Seq<int> = Seq::empty();
        let mut k: usize = 0;
        while k < 8
            invariant
                k <= 8,
                x < size,
                y < size,
                size <= MAX_FIELD_SIZE,
                r@.len() <= k,
                r@ == adjacent_coords_upto(size as int, x as int, y as int, k as int),
                idxs.len() == r@.len(),
                forall|i: int|
                    0 <= i < r@.len() ==> 0 <= #[trigger] idxs[i] < k && 0 <= x + off_x(idxs[i])
                        < size && 0 <= y + off_y(idxs[i]) < size && r@[i] == ((x + off_x(
                        idxs[i],
                    )) as usize, (y + off_y(idxs[i])) as usize),
                forall|i1: int, i2: int| 0 <= i1 < i2 < idxs.len() ==> idxs[i1] < idxs[i2],
                forall|i: int| 0 <= i < r@.len() ==> (#[trigger] r@[i]).0 < size && r@[i].1 < size,
                forall|i: int|
                    0 <= i < r@.len() ==> adjacent(
                        x as int,
                        y as int,
                        (#[trigger] r@[i]).0 as int,
                        r@[i].1 as int,
                    ),
                forall|j: int|
                    0 <= j < k && 0 <= x + off_x(j) < size && 0 <= y + #[trigger] off_y(j) < size
                        ==> r@.contains(((x + off_x(j)) as usize, (y + off_y(j)) as usize)),
            decreases 8 - k,
        {
            let ghost r_prev = r@;
            let (dx, dy) = neighbor_offset(k);
            let nx = x as i64 + dx;
            let ny = y as i64 + dy;
            if 0 <= nx && nx < size as i64 && 0 <= ny && ny < size as i64 {
                r.push((nx as usize, ny as usize));
                proof {
                    idxs = idxs.push(k as int);
                }
            }
            proof {
                assert forall|w: (usize, usize)| r_prev.contains(w) implies r@.contains(w) by {
                    let i = choose|i: int| 0 <= i < r_prev.len() && r_prev[i] == w;
                    assert(r@[i] == w);
                }
                if 0 <= x + off_x(k as int) < size && 0 <= y + off_y(k as int) < size {
                    let jx = (x + off_x(k as int)) as usize;
                    let jy = (y + off_y(k as int)) as usize;
                    assert(r@.last() == (jx, jy));
                    assert(r@.contains(r@.last()));
                }
                assert(r@ =~= adjacent_coords_upto(
                    size as int,
                    x as int,
                    y as int,
                    k as int + 1,
                ));
            }
            k = k + 1;
        }
        proof {
            assert forall|a: int, b: int|
                0 <= a < size && 0 <= b < size && adjacent(x as int, y as int, a, b) implies r@
                .contains((a as usize, b as usize)) by {
                lemma_adjacent_offset(x as int, y as int, a, b);
                let j = offset_index(a - x, b - y);
                assert(0 <= x + off_x(j) < size && 0 <= y + off_y(j) < size);
            }
            assert forall|i1: int, i2: int| 0 <= i1 < i2 < r@.len() implies r@[i1] != r@[i2] by {
                let j1 = idxs[i1];
                let j2 = idxs[i2];
                assert(j1 < j2);
                assert(off_x(j1) != off_x(j2) || off_y(j1) != off_y(j2));
                assert(x + off_x(j1) != x + off_x(j2) || y + off_y(j1) != y + off_y(j2));
            }
        }
        r
    }

    /// Build a fresh field of the given size, deciding each cell's mine
    /// independently with the fixed mine probability.
    pub fn new(size: usize) -> (r: Self)
        requires
            1 <= size <= MAX_FIELD_SIZE,
        ensures
            r.wf(),
            r.size == size,
            r.cell_count == size * size,
            r.revealed_count == 0,
            r.placed_flags == 0,
    {
        let mut mines: Vec<Vec<bool>> = Vec::new();
        let mut y: usize = 0;
        while y < size
            invariant
                y <= size,
                size <= MAX_FIELD_SIZE,
                mines@.len() == y,
                forall|i: int| 0 <= i < y ==> (#[trigger] mines@[i])@.len() == size,
            decreases size - y,
        {
            let mut row: Vec<bool> = Vec::new();
            let mut x: usize = 0;
            while x < size
                invariant
                    x <= size,
                    row@.len() == x,
                decreases size - x,
            {
                row.push(crate::util::probability(MINE_PROBABILITY_PERCENT));
                x = x + 1;
            }
            mines.push(row);
            y = y + 1;
        }
        Self::from_mines(&mines)
    }
}

/// The offset of the `k`-th neighbour in the scan order.
fn neighbor_offset(k: usize) -> (r: (i64, i64))
    requires
        k < 8,
    ensures
        r.0 == off_x(k as int),
        r.1 == off_y(k as int),
        -1 <= r.0 <= 1,
        -1 <= r.1 <= 1,
        !(r.0 == 0 && r.1 == 0),
{
    if k == 0 {
        (-1, -1)
    } else if k == 1 {
        (0, -1)
    } else if k == 2 {
        (1, -1)
    } else if k == 3 {
        (-1, 0)
    } else if k == 4 {
        (1, 0)
    } else if k == 5 {
        (-1, 1)
    } else if k == 6 {
        (0, 1)
    } else {
        (1, 1)
    }
}

/// Count the mines among the neighbours of `(x, y)` in a boolean layout.
fn count_adjacent_mines(mines: &Vec<Vec<bool>>, x: usize, y: usize) -> (cnt: usize)
    requires
        mines@.len() <= MAX_FIELD_SIZE,
        forall|i: int| 0 <= i < mines@.len() ==> (#[trigger] mines@[i])@.len() == mines@.len(),
        x < mines@.len(),
        y < mines@.len(),
    ensures
        cnt == adj_mines(bool_grid_mine_at(bools_view(mines@)), x as int, y as int),
        cnt <= 8,
{
    let ghost m = bool_grid_mine_at(bools_view(mines@));
    let size = mines.len();
    let mut cnt: usize = 0;
    let mut k: usize = 0;
    while k < 8
        invariant
            k <= 8,
            cnt <= k,
            x < size,
            y < size,
            size == mines@.len(),
            size <= MAX_FIELD_SIZE,
            forall|i: int| 0 <= i < mines@.len() ==> (#[trigger] mines@[i])@.len() == mines@.len(),
            m == bool_grid_mine_at(bools_view(mines@)),
            cnt == adj_mines_upto(m, x as int, y as int, k as int),
        decreases 8 - k,
    {
        let (dx, dy) = neighbor_offset(k);
        let nx = x as i64 + dx;
        let ny = y as i64 + dy;
        if 0 <= nx && nx < size as i64 && 0 <= ny && ny < size as i64 {
            if mines[ny as usize][nx as usize] {
                cnt = cnt + 1;
            }
        }
        k = k + 1;
    }
    cnt
}

} // verus!
