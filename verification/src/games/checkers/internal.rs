use vstd::prelude::*;

verus! {

pub const BOARD_SIZE: usize = 8;

#[derive(Clone, Copy, Debug, PartialEq, Eq, Structural)]
pub enum Player {
    Math,
    Alphabet,
}

impl Player {
    /// the display name of the player
    pub fn name(&self) -> (r: &'static str)
        ensures
            *self is Math ==> r@ == "Math"@,
            *self is Alphabet ==> r@ == "Alphabet"@,
    {
        match self {
            Self::Math => "Math",
            Self::Alphabet => "Alphabet",
        }
    }

    pub open spec fn spec_other(self) -> Player {
        if self is Math {
            Player::Alphabet
        } else {
            Player::Math
        }
    }

    /// the opposing player
    pub fn other(&self) -> (r: Player)
        ensures
            r == self.spec_other(),
    {
        match self {
            Self::Math => Player::Alphabet,
            Self::Alphabet => Player::Math,
        }
    }
}

#[derive(Clone, Copy, Debug, PartialEq, Eq, Structural)]
pub enum Direction {
    UpLeft,
    UpRight,
    DownLeft,
    DownRight,
}

impl Direction {
    /// the step this direction takes along the x axis
    pub open spec fn dx(self) -> int {
        match self {
            Direction::UpLeft => -1,
            Direction::DownLeft => -1,
            Direction::UpRight => 1,
            Direction::DownRight => 1,
        }
    }

    /// the step this direction takes along the y axis; up is toward row 0
    pub open spec fn dy(self) -> int {
        match self {
            Direction::UpLeft => -1,
            Direction::UpRight => -1,
            Direction::DownLeft => 1,
            Direction::DownRight => 1,
        }
    }

    /// both steps at once, for walking a ray
    fn offsets(&self) -> (r: (i64, i64))
        ensures
            r.0 == self.dx(),
            r.1 == self.dy(),
    {
        match self {
            Self::UpLeft => (-1, -1),
            Self::UpRight => (1, -1),
            Self::DownLeft => (-1, 1),
            Self::DownRight => (1, 1),
        }
    }

    /// the symbol shown beside a landing cell on the rendered board
    pub fn symbol(&self) -> (r: char)
        ensures
            *self is UpLeft ==> r == 'e',
            *self is UpRight ==> r == 'q',
            *self is DownLeft ==> r == 'a',
            *self is DownRight ==> r == 'd',
    {
        match self {
            Self::UpLeft => 'e',
            Self::UpRight => 'q',
            Self::DownLeft => 'a',
            Self::DownRight => 'd',
        }
    }

    /// the key a player presses to pick this direction
    pub fn from_symbol(c: char) -> (r: Option<Direction>)
        ensures
            c == 'q' ==> r == Some(Direction::UpLeft),
            c == 'e' ==> r == Some(Direction::UpRight),
            c == 'a' ==> r == Some(Direction::DownLeft),
            c == 'd' ==> r == Some(Direction::DownRight),
            c != 'q' && c != 'e' && c != 'a' && c != 'd' ==> r is None,
    {
        if c == 'q' {
            Some(Direction::UpLeft)
        } else if c == 'e' {
            Some(Direction::UpRight)
        } else if c == 'a' {
            Some(Direction::DownLeft)
        } else if c == 'd' {
            Some(Direction::DownRight)
        } else {
            None
        }
    }
}

/// The name given to the `i`-th checker of the Math player, in the order
/// the opening rows are filled.
pub open spec fn spec_math_name(i: int) -> char {
    if i == 0 {
        '1'
    } else if i == 1 {
        '2'
    } else if i == 2 {
        '3'
    } else if i == 3 {
        '4'
    } else if i == 4 {
        '5'
    } else if i == 5 {
        '6'
    } else if i == 6 {
        '7'
    } else if i == 7 {
        '8'
    } else if i == 8 {
        '9'
    } else if i == 9 {
        '+'
    } else if i == 10 {
        '-'
    } else {
        '*'
    }
}

fn math_name(i: usize) -> (r: char)
    requires
        i < 12,
    ensures
        r == spec_math_name(i as int),
{
    if i == 0 {
        '1'
    } else if i == 1 {
        '2'
    } else if i == 2 {
        '3'
    } else if i == 3 {
        '4'
    } else if i == 4 {
        '5'
    } else if i == 5 {
        '6'
    } else if i == 6 {
        '7'
    } else if i == 7 {
        '8'
    } else if i == 8 {
        '9'
    } else if i == 9 {
        '+'
    } else if i == 10 {
        '-'
    } else {
        '*'
    }
}

/// The name given to the `i`-th checker of the Alphabet player.
pub open spec fn spec_alphabet_name(i: int) -> char {
    if i == 0 {
        'a'
    } else if i == 1 {
        'b'
    } else if i == 2 {
        'c'
    } else if i == 3 {
        'd'
    } else if i == 4 {
        'e'
    } else if i == 5 {
        'f'
    } else if i == 6 {
        'g'
    } else if i == 7 {
        'h'
    } else if i == 8 {
        'i'
    } else if i == 9 {
        'j'
    } else if i == 10 {
        'k'
    } else {
        'l'
    }
}

fn alphabet_name(i: usize) -> (r: char)
    requires
        i < 12,
    ensures
        r == spec_alphabet_name(i as int),
{
    if i == 0 {
        'a'
    } else if i == 1 {
        'b'
    } else if i == 2 {
        'c'
    } else if i == 3 {
        'd'
    } else if i == 4 {
        'e'
    } else if i == 5 {
        'f'
    } else if i == 6 {
        'g'
    } else if i == 7 {
        'h'
    } else if i == 8 {
        'i'
    } else if i == 9 {
        'j'
    } else if i == 10 {
        'k'
    } else {
        'l'
    }
}

#[derive(Clone, Copy, Debug, PartialEq, Eq, Structural)]
pub struct Checker {
    pub king: bool,
    pub owner: Player,
    pub name: char,
}

impl Checker {
    pub fn new(owner: Player, name: char) -> (r: Self)
        ensures
            r.owner == owner,
            r.name == name,
            !r.king,
    {
        Self { king: false, owner, name }
    }
}

/// One entry of the transient move list: a direction and the cell the
/// selected checker would land on.
#[derive(Clone, Copy, Debug)]
pub struct PossibleMove {
    pub dir: Direction,
    pub final_pos: (usize, usize),
}

#[derive(Clone, Copy, Debug, PartialEq, Eq, Structural)]
pub enum CheckersError {
    /// the name selects no checker of the player to move
    IllegalSelection,
    /// the selected checker has no landing in any direction
    NoLegalMove,
    /// the chosen direction is not among the computed moves
    IllegalDirection,
}

/// A board position names a cell of the 8-by-8 grid.
pub open spec fn pos_in_bounds(x: int, y: int) -> bool {
    0 <= x < 8 && 0 <= y < 8
}

/// The playable diagonal: the dark squares of the board.
pub open spec fn pos_on_path(x: int, y: int) -> bool {
    pos_in_bounds(x, y) && (x + y) % 2 == 1
}

/// The checker standing at `(x, y)`, read from a row-major board.
pub open spec fn board_at(b: Seq<Option<Checker>>, x: int, y: int) -> Option<Checker> {
    b[y * 8 + x]
}

pub open spec fn board_own_at(b: Seq<Option<Checker>>, mp: Player, x: int, y: int) -> bool {
    pos_in_bounds(x, y) && (board_at(b, x, y) matches Some(c) && c.owner == mp)
}

pub open spec fn board_enemy_at(b: Seq<Option<Checker>>, mp: Player, x: int, y: int) -> bool {
    pos_in_bounds(x, y) && (board_at(b, x, y) matches Some(c) && c.owner != mp)
}

/// A cell a checker may stand on or land on: on the playable diagonal and
/// holding no checker.
pub open spec fn board_empty_at(b: Seq<Option<Checker>>, x: int, y: int) -> bool {
    pos_on_path(x, y) && board_at(b, x, y) is None
}

/// The remembered cell of the walk, as spec-level coordinates.
pub open spec fn pos_view(o: Option<(usize, usize)>) -> Option<(int, int)> {
    match o {
        Some(p) => Some((p.0 as int, p.1 as int)),
        None => None,
    }
}

/// The directional scan from the cell `(x, y)` onward: walk the ray with
/// step `(dx, dy)`, remembering in `last` the latest empty cell an
/// unobstructed run has offered, and resolve the landing cell. An enemy
/// checker with a free playable cell right behind it is jumped; a blocked
/// enemy or an own checker ends the scan with whatever was remembered; an
/// empty cell with nothing playable beyond it is itself the landing.
pub open spec fn scan_from(
    b: Seq<Option<Checker>>,
    mp: Player,
    x: int,
    y: int,
    dx: int,
    dy: int,
    last: Option<(int, int)>,
) -> Option<(int, int)>
    decreases (if dx >= 0 { 8 - x } else { x + 1 }),
{
    if !pos_in_bounds(x, y) {
        None
    } else if board_enemy_at(b, mp, x, y) {
        if board_empty_at(b, x + dx, y + dy) {
            Some((x + dx, y + dy))
        } else {
            last
        }
    } else if board_own_at(b, mp, x, y) {
        last
    } else if !pos_on_path(x + dx, y + dy) {
        Some((x, y))
    } else if dx == 1 || dx == -1 {
        scan_from(b, mp, x + dx, y + dy, dx, dy, Some((x, y)))
    } else {
        None
    }
}

/// The landing cell, if any, that the scan from `(sx, sy)` resolves in
/// direction `dir` for the player `mp`.
pub open spec fn spec_landing(
    b: Seq<Option<Checker>>,
    mp: Player,
    sx: int,
    sy: int,
    dir: Direction,
) -> Option<(int, int)> {
    scan_from(b, mp, sx + dir.dx(), sy + dir.dy(), dir.dx(), dir.dy(), None)
}

/// The move-list entry one direction contributes: a single entry when the
/// scan lands, none otherwise.
pub open spec fn move_entry(
    b: Seq<Option<Checker>>,
    mp: Player,
    sx: int,
    sy: int,
    dir: Direction,
) -> Seq<PossibleMove> {
    match spec_landing(b, mp, sx, sy, dir) {
        Some(p) => seq![PossibleMove { dir, final_pos: ((p.0 as usize, p.1 as usize)) }],
        None => seq![],
    }
}

/// The full move list of a cell, one direction after the other in the
/// fixed scan order.
pub open spec fn spec_moves(b: Seq<Option<Checker>>, mp: Player, sx: int, sy: int) -> Seq<
    PossibleMove,
> {
    move_entry(b, mp, sx, sy, Direction::DownLeft) + move_entry(
        b,
        mp,
        sx,
        sy,
        Direction::DownRight,
    ) + move_entry(b, mp, sx, sy, Direction::UpLeft) + move_entry(b, mp, sx, sy, Direction::UpRight)
}

/// What one step of the scan decided: the landing to report, if any, and
/// whether the walk stops here.
pub struct FindPossibleMoveResult {
    pub final_pos: Option<(usize, usize)>,
    pub stop: bool,
}


/// Where the checker called `name` stands on the board, if anywhere.
pub open spec fn name_position(b: Seq<Option<Checker>>, name: char) -> Option<(int, int)> {
    if exists|p: (int, int)|
        pos_in_bounds(p.0, p.1) && (#[trigger] board_at(b, p.0, p.1) matches Some(c) && c.name
            == name) {
        Some(
            choose|p: (int, int)|
                pos_in_bounds(p.0, p.1) && (#[trigger] board_at(b, p.0, p.1) matches Some(c)
                    && c.name == name),
        )
    } else {
        None
    }
}

/// The selection is legal: the name stands for a checker of the player to
/// move.
pub open spec fn selection_ok(b: Seq<Option<Checker>>, mp: Player, name: char) -> bool {
    name_position(b, name) matches Some(p) && board_own_at(b, mp, p.0, p.1)
}

/// The player `mp` is stuck: no checker of theirs resolves a landing in
/// any direction.
pub open spec fn board_stuck(b: Seq<Option<Checker>>, mp: Player) -> bool {
    forall|x: int, y: int|
        #[trigger] board_own_at(b, mp, x, y) ==> spec_landing(b, mp, x, y, Direction::DownLeft) is None
            && spec_landing(b, mp, x, y, Direction::DownRight) is None && spec_landing(
            b,
            mp,
            x,
            y,
            Direction::UpLeft,
        ) is None && spec_landing(b, mp, x, y, Direction::UpRight) is None
}

/// Coordinates and row-major indices convert both ways.
proof fn lemma_idx_coords(x: int, y: int)
    requires
        0 <= x < 8,
        0 <= y < 8,
    ensures
        0 <= y * 8 + x < 64,
        (y * 8 + x) % 8 == x,
        (y * 8 + x) / 8 == y,
{
    assert(0 <= y * 8 + x < 64 && (y * 8 + x) % 8 == x && (y * 8 + x) / 8 == y)
        by (nonlinear_arith)
        requires
            0 <= x < 8,
            0 <= y < 8,
    ;
}

/// Along a ray from a dark square every cell keeps the square's parity,
/// so a resolved landing lies on the playable diagonal.
proof fn lemma_scan_on_path(
    b: Seq<Option<Checker>>,
    mp: Player,
    x: int,
    y: int,
    dx: int,
    dy: int,
    last: Option<(int, int)>,
)
    requires
        (x + y) % 2 == 1,
        dx == 1 || dx == -1,
        dy == 1 || dy == -1,
        last matches Some(p) ==> pos_on_path(p.0, p.1),
    ensures
        scan_from(b, mp, x, y, dx, dy, last) matches Some(p) ==> pos_on_path(p.0, p.1),
    decreases (if dx >= 0 {
        8 - x
    } else {
        x + 1
    }),
{
    if pos_in_bounds(x, y) {
        if board_enemy_at(b, mp, x, y) {
        } else if board_own_at(b, mp, x, y) {
        } else if !pos_on_path(x + dx, y + dy) {
            assert(pos_on_path(x, y));
        } else {
            assert((x + dx + (y + dy)) % 2 == 1);
            lemma_scan_on_path(b, mp, x + dx, y + dy, dx, dy, Some((x, y)));
        }
    }
}

/// A landing resolved from a dark square lies on the playable diagonal.
pub proof fn lemma_landing_on_path(
    b: Seq<Option<Checker>>,
    mp: Player,
    sx: int,
    sy: int,
    dir: Direction,
)
    requires
        pos_on_path(sx, sy),
    ensures
        spec_landing(b, mp, sx, sy, dir) matches Some(p) ==> pos_on_path(p.0, p.1),
{
    assert((sx + dir.dx() + (sy + dir.dy())) % 2 == 1);
    lemma_scan_on_path(b, mp, sx + dir.dx(), sy + dir.dy(), dir.dx(), dir.dy(), None);
}

/// The scan walks away from its start: every landing lies strictly on the
/// far side of the first scanned cell, never back at the start.
proof fn lemma_scan_beyond(
    b: Seq<Option<Checker>>,
    mp: Player,
    sx: int,
    x: int,
    y: int,
    dx: int,
    dy: int,
    last: Option<(int, int)>,
)
    requires
        dx == 1 || dx == -1,
        dx == 1 ==> x > sx,
        dx == -1 ==> x < sx,
        last matches Some(p) ==> (dx == 1 ==> p.0 > sx) && (dx == -1 ==> p.0 < sx),
    ensures
        scan_from(b, mp, x, y, dx, dy, last) matches Some(p) ==> (dx == 1 ==> p.0 > sx) && (dx
            == -1 ==> p.0 < sx),
    decreases (if dx >= 0 {
        8 - x
    } else {
        x + 1
    }),
{
    if pos_in_bounds(x, y) {
        if board_enemy_at(b, mp, x, y) {
        } else if board_own_at(b, mp, x, y) {
        } else if !pos_on_path(x + dx, y + dy) {
        } else {
            lemma_scan_beyond(b, mp, sx, x + dx, y + dy, dx, dy, Some((x, y)));
        }
    }
}

/// A landing never falls back on the cell the scan started from.
pub proof fn lemma_landing_not_start(
    b: Seq<Option<Checker>>,
    mp: Player,
    sx: int,
    sy: int,
    dir: Direction,
)
    ensures
        spec_landing(b, mp, sx, sy, dir) matches Some(p) ==> p != (sx, sy),
{
    lemma_scan_beyond(b, mp, sx, sx + dir.dx(), sy + dir.dy(), dir.dx(), dir.dy(), None);
}


/// An enemy checker diagonally adjacent, with a free playable cell right
/// behind it on the same ray, yields the jump capture: the landing is
/// that free cell.
pub proof fn lemma_capture_adjacent(
    b: Seq<Option<Checker>>,
    mp: Player,
    sx: int,
    sy: int,
    dir: Direction,
)
    requires
        board_enemy_at(b, mp, sx + dir.dx(), sy + dir.dy()),
        board_empty_at(b, sx + 2 * dir.dx(), sy + 2 * dir.dy()),
    ensures
        spec_landing(b, mp, sx, sy, dir) == Some((sx + 2 * dir.dx(), sy + 2 * dir.dy())),
{
    assert(sx + dir.dx() + dir.dx() == sx + 2 * dir.dx());
    assert(sy + dir.dy() + dir.dy() == sy + 2 * dir.dy());
}

/// An enemy checker diagonally adjacent whose far side is occupied or off
/// the playable diagonal yields no landing in that direction.
pub proof fn lemma_capture_blocked(
    b: Seq<Option<Checker>>,
    mp: Player,
    sx: int,
    sy: int,
    dir: Direction,
)
    requires
        board_enemy_at(b, mp, sx + dir.dx(), sy + dir.dy()),
        !board_empty_at(b, sx + 2 * dir.dx(), sy + 2 * dir.dy()),
    ensures
        spec_landing(b, mp, sx, sy, dir) is None,
{
    assert(sx + dir.dx() + dir.dx() == sx + 2 * dir.dx());
    assert(sy + dir.dy() + dir.dy() == sy + 2 * dir.dy());
}

/// The scan from `(cx, cy)` onward when a checker of the same team stands
/// `r` steps down the ray with nothing but empty cells in between: the
/// blocker ends the walk with the last empty cell before it.
proof fn lemma_own_blocks_from(
    b: Seq<Option<Checker>>,
    mp: Player,
    cx: int,
    cy: int,
    dx: int,
    dy: int,
    r: int,
    last: Option<(int, int)>,
)
    requires
        dx == 1 || dx == -1,
        dy == 1 || dy == -1,
        0 <= r,
        pos_in_bounds(cx, cy),
        (cx + cy) % 2 == 1,
        pos_in_bounds(cx + r * dx, cy + r * dy),
        board_own_at(b, mp, cx + r * dx, cy + r * dy),
        forall|t: int| 0 <= t < r ==> #[trigger] board_at(b, cx + t * dx, cy + t * dy) is None,
    ensures
        scan_from(b, mp, cx, cy, dx, dy, last) == (if r == 0 {
            last
        } else {
            Some((cx + (r - 1) * dx, cy + (r - 1) * dy))
        }),
    decreases r,
{
    if r == 0 {
        assert(cx + 0 * dx == cx && cy + 0 * dy == cy) by (nonlinear_arith);
        assert(board_own_at(b, mp, cx, cy));
    } else {
        assert(cx + 0 * dx == cx && cy + 0 * dy == cy) by (nonlinear_arith);
        assert(board_at(b, cx, cy) is None);
        assert(cx + 1 * dx == cx + dx && cy + 1 * dy == cy + dy) by (nonlinear_arith);
        // the next cell lies between this one and the blocker, hence on
        // the board, and on the same parity, hence on the diagonal
        assert(0 <= cx + dx < 8 && 0 <= cy + dy < 8) by (nonlinear_arith)
            requires
                dx == 1 || dx == -1,
                dy == 1 || dy == -1,
                1 <= r,
                0 <= cx < 8,
                0 <= cy < 8,
                0 <= cx + r * dx < 8,
                0 <= cy + r * dy < 8,
        ;
        assert((cx + dx + (cy + dy)) % 2 == 1);
        assert(pos_on_path(cx + dx, cy + dy));
        if r == 1 {
            lemma_own_blocks_from(b, mp, cx + dx, cy + dy, dx, dy, 0, Some((cx, cy)));
        } else {
            assert((cx + dx) + (r - 1) * dx == cx + r * dx) by (nonlinear_arith);
            assert((cy + dy) + (r - 1) * dy == cy + r * dy) by (nonlinear_arith);
            assert forall|t: int| 0 <= t < r - 1 implies #[trigger] board_at(
                b,
                (cx + dx) + t * dx,
                (cy + dy) + t * dy,
            ) is None by {
                assert((cx + dx) + t * dx == cx + (t + 1) * dx) by (nonlinear_arith);
                assert((cy + dy) + t * dy == cy + (t + 1) * dy) by (nonlinear_arith);
                assert(board_at(b, cx + (t + 1) * dx, cy + (t + 1) * dy) is None);
            }
            lemma_own_blocks_from(b, mp, cx + dx, cy + dy, dx, dy, r - 1, Some((cx, cy)));
            assert((cx + dx) + (r - 2) * dx == cx + (r - 1) * dx) by (nonlinear_arith);
            assert((cy + dy) + (r - 2) * dy == cy + (r - 1) * dy) by (nonlinear_arith);
        }
    }
}

/// Two checkers of the same team on one ray block it: with an own-team
/// checker `j` steps away and nothing but empty cells before it, the scan
/// stops at the blocker. The landing is the last empty cell in front of
/// it, and in particular never a cell at or past the blocker.
pub proof fn lemma_own_blocks(
    b: Seq<Option<Checker>>,
    mp: Player,
    sx: int,
    sy: int,
    dir: Direction,
    j: int,
)
    requires
        pos_on_path(sx, sy),
        1 <= j,
        pos_in_bounds(sx + j * dir.dx(), sy + j * dir.dy()),
        board_own_at(b, mp, sx + j * dir.dx(), sy + j * dir.dy()),
        forall|t: int|
            1 <= t < j ==> #[trigger] board_at(b, sx + t * dir.dx(), sy + t * dir.dy()) is None,
    ensures
        spec_landing(b, mp, sx, sy, dir) == (if j >= 2 {
            Some((sx + (j - 1) * dir.dx(), sy + (j - 1) * dir.dy()))
        } else {
            None
        }),
{
    let dx = dir.dx();
    let dy = dir.dy();
    assert(sx + 1 * dx == sx + dx && sy + 1 * dy == sy + dy) by (nonlinear_arith);
    assert(0 <= sx + dx < 8 && 0 <= sy + dy < 8) by (nonlinear_arith)
        requires
            dx == 1 || dx == -1,
            dy == 1 || dy == -1,
            1 <= j,
            0 <= sx < 8,
            0 <= sy < 8,
            0 <= sx + j * dx < 8,
            0 <= sy + j * dy < 8,
    ;
    assert((sx + dx + (sy + dy)) % 2 == 1);
    assert((sx + dx) + (j - 1) * dx == sx + j * dx) by (nonlinear_arith);
    assert((sy + dy) + (j - 1) * dy == sy + j * dy) by (nonlinear_arith);
    assert forall|t: int| 0 <= t < j - 1 implies #[trigger] board_at(
        b,
        (sx + dx) + t * dx,
        (sy + dy) + t * dy,
    ) is None by {
        assert((sx + dx) + t * dx == sx + (t + 1) * dx) by (nonlinear_arith);
        assert((sy + dy) + t * dy == sy + (t + 1) * dy) by (nonlinear_arith);
        assert(board_at(b, sx + (t + 1) * dx, sy + (t + 1) * dy) is None);
    }
    lemma_own_blocks_from(b, mp, sx + dx, sy + dy, dx, dy, j - 1, None);
    if j >= 2 {
        assert((sx + dx) + (j - 2) * dx == sx + (j - 1) * dx) by (nonlinear_arith);
        assert((sy + dy) + (j - 2) * dy == sy + (j - 1) * dy) by (nonlinear_arith);
    }
}


/// How the board after a legal move relates to the board before it: the
/// moving checker left `sp` and stands on `lp`, the enemy checker one
/// step short of the landing — the one that was jumped — is gone, and
/// nothing else moved.
pub open spec fn moved_board_ok(
    b0: Seq<Option<Checker>>,
    mp: Player,
    sp: (int, int),
    lp: (int, int),
    dir: Direction,
    b1: Seq<Option<Checker>>,
) -> bool {
    &&& b1.len() == 64
    &&& board_at(b1, lp.0, lp.1) == board_at(b0, sp.0, sp.1)
    &&& board_at(b1, sp.0, sp.1) is None
    &&& (board_enemy_at(b0, mp, lp.0 - dir.dx(), lp.1 - dir.dy()) ==> board_at(
        b1,
        lp.0 - dir.dx(),
        lp.1 - dir.dy(),
    ) is None)
    &&& (!board_enemy_at(b0, mp, lp.0 - dir.dx(), lp.1 - dir.dy()) && (
    lp.0 - dir.dx(),
    lp.1 - dir.dy(),
    ) != sp && pos_in_bounds(lp.0 - dir.dx(), lp.1 - dir.dy()) ==> board_at(
        b1,
        lp.0 - dir.dx(),
        lp.1 - dir.dy(),
    ) == board_at(b0, lp.0 - dir.dx(), lp.1 - dir.dy()))
    &&& forall|x: int, y: int|
        pos_in_bounds(x, y) && (x, y) != sp && (x, y) != lp && (x, y) != (
        lp.0 - dir.dx(),
        lp.1 - dir.dy(),
        ) ==> #[trigger] board_at(b1, x, y) == board_at(b0, x, y)
}

/// The checker placed at `(x, y)` when a game opens: the first three rows
/// of dark squares belong to the Math player, the last three to the
/// Alphabet player, with names handed out in scan order.
pub open spec fn initial_at(x: int, y: int) -> Option<Checker> {
    if pos_on_path(x, y) && y < 3 {
        Some(Checker { king: false, owner: Player::Math, name: spec_math_name(4 * y + x / 2) })
    } else if pos_on_path(x, y) && y > 4 {
        Some(
            Checker {
                king: false,
                owner: Player::Alphabet,
                name: spec_alphabet_name(4 * (y - 5) + x / 2),
            },
        )
    } else {
        None
    }
}

/// The checkers board: the dark-square grid, the player to move, and the
/// transient move list of the currently selected checker.
pub struct Checkers {
    pub board: Vec<Option<Checker>>,
    pub turn_of: Player,
    pub possible_moves: Vec<PossibleMove>,
}

impl Checkers {
    pub open spec fn at(self, x: int, y: int) -> Option<Checker> {
        board_at(self.board@, x, y)
    }

    /// A position holds at most one checker by construction; the board is
    /// well formed when checkers stand on dark squares only and names are
    /// unique across the whole board.
    pub open spec fn wf(self) -> bool {
        &&& self.board@.len() == 64
        &&& forall|i: int|
            0 <= i < 64 && (#[trigger] self.board@[i]) is Some ==> ((i % 8) + (i / 8)) % 2 == 1
        &&& forall|i: int, j: int|
            0 <= i < 64 && 0 <= j < 64 && i != j && (#[trigger] self.board@[i]) is Some && (
            #[trigger] self.board@[j]) is Some ==> self.board@[i].unwrap().name
                != self.board@[j].unwrap().name
    }

    /// Set up the opening position: Math checkers on the dark squares of
    /// the first three rows, Alphabet checkers on those of the last three,
    /// names assigned in scan order; Math moves first.
    pub fn new() -> (r: Self)
        ensures
            r.wf(),
            r.turn_of == Player::Math,
            r.possible_moves@.len() == 0,
            forall|x: int, y: int| pos_in_bounds(x, y) ==> #[trigger] r.at(x, y) == initial_at(x, y),
    {
        let mut board: Vec<Option<Checker>> = Vec::new();
        let mut math_used: usize = 0;
        let mut alphabet_used: usize = 0;
        let mut y: usize = 0;
        while y < 8
            invariant
                y <= 8,
                board@.len() == y * 8,
                math_used == (if y < 3 {
                    4 * y
                } else {
                    12
                }),
                alphabet_used == (if y <= 5 {
                    0
                } else {
                    4 * (y - 5)
                }),
                alphabet_used <= 12,
                forall|i: int|
                    0 <= i < board@.len() ==> #[trigger] board@[i] == initial_at(i % 8, i / 8),
            decreases 8 - y,
        {
            let mut x: usize = 0;
            while x < 8
                invariant
                    x <= 8,
                    y < 8,
                    board@.len() == y * 8 + x,
                    math_used == (if y < 3 {
                        4 * y + (if y % 2 == 0 {
                            (x as int) / 2
                        } else {
                            ((x as int) + 1) / 2
                        })
                    } else {
                        12
                    }),
                    alphabet_used == (if y < 5 {
                        0
                    } else {
                        4 * (y - 5) + (if y % 2 == 0 {
                            (x as int) / 2
                        } else {
                            ((x as int) + 1) / 2
                        })
                    }),
                    forall|i: int|
                        0 <= i < board@.len() ==> #[trigger] board@[i] == initial_at(i % 8, i / 8),
                decreases 8 - x,
            {
                let dark = (x + y) % 2 == 1;
                if dark && y < 3 {
                    let nm = math_name(math_used);
                    board.push(Some(Checker::new(Player::Math, nm)));
                    math_used = math_used + 1;
                } else if dark && y > 4 {
                    let nm = alphabet_name(alphabet_used);
                    board.push(Some(Checker::new(Player::Alphabet, nm)));
                    alphabet_used = alphabet_used + 1;
                } else {
                    board.push(None);
                }
                proof {
                    let i = board@.len() - 1;
                    assert(i == y * 8 + x);
                    assert(i % 8 == x && i / 8 == y) by (nonlinear_arith)
                        requires
                            i == y * 8 + x,
                            0 <= x < 8,
                            0 <= y < 8,
                    ;
                    assert(board@[i] == initial_at(x as int, y as int));
                }
                x = x + 1;
            }
            y = y + 1;
        }
        let r = Checkers { board, turn_of: Player::Math, possible_moves: Vec::new() };
        proof {
            assert forall|x: int, y: int| pos_in_bounds(x, y) implies #[trigger] r.at(x, y)
                == initial_at(x, y) by {
                let i = y * 8 + x;
                assert(0 <= i < 64) by (nonlinear_arith)
                    requires
                        0 <= x < 8,
                        0 <= y < 8,
                        i == y * 8 + x,
                ;
                assert(i % 8 == x && i / 8 == y) by (nonlinear_arith)
                    requires
                        i == y * 8 + x,
                        0 <= x < 8,
                        0 <= y < 8,
                ;
            }
            assert forall|i: int|
                0 <= i < 64 && (#[trigger] r.board@[i]) is Some implies ((i % 8) + (i / 8)) % 2
                == 1 by {
                assert(r.board@[i] == initial_at(i % 8, i / 8));
            }
            assert forall|k1: int, k2: int|
                0 <= k1 < 12 && 0 <= k2 < 12 && k1 != k2 implies spec_math_name(k1)
                != spec_math_name(k2) && spec_alphabet_name(k1) != spec_alphabet_name(k2) by {}
            assert forall|k1: int, k2: int|
                0 <= k1 < 12 && 0 <= k2 < 12 implies spec_math_name(k1) != spec_alphabet_name(
                k2,
            ) by {}
            assert forall|i: int, j: int|
                0 <= i < 64 && 0 <= j < 64 && i != j && (#[trigger] r.board@[i]) is Some && (
                #[trigger] r.board@[j]) is Some implies r.board@[i].unwrap().name
                != r.board@[j].unwrap().name by {
                let xi = i % 8;
                let yi = i / 8;
                let xj = j % 8;
                let yj = j / 8;
                assert(r.board@[i] == initial_at(xi, yi));
                assert(r.board@[j] == initial_at(xj, yj));
                assert(xi != xj || yi != yj) by (nonlinear_arith)
                    requires
                        i != j,
                        i == yi * 8 + xi,
                        j == yj * 8 + xj,
                        0 <= xi < 8,
                        0 <= xj < 8,
                ;
                assert(i == yi * 8 + xi && j == yj * 8 + xj);
                if yi < 3 && yj < 3 {
                    assert(4 * yi + xi / 2 != 4 * yj + xj / 2);
                } else if yi > 4 && yj > 4 {
                    assert(4 * (yi - 5) + xi / 2 != 4 * (yj - 5) + xj / 2);
                }
            }
        }
        r
    }

    /// Where the checker called `name` stands, if anywhere.
    pub fn find_checker_position(&self, name: char) -> (r: Option<(usize, usize)>)
        requires
            self.wf(),
        ensures
            r matches Some(p) ==> p.0 < 8 && p.1 < 8 && (self.at(p.0 as int, p.1 as int)
                matches Some(c) && c.name == name),
            r is None ==> forall|x: int, y: int|
                pos_in_bounds(x, y) ==> !(#[trigger] self.at(x, y) matches Some(c) && c.name
                    == name),
    {
        let mut i: usize = 0;
        while i < 64
            invariant
                i <= 64,
                self.wf(),
                forall|k: int| 0 <= k < i ==> !(#[trigger] self.board@[k] matches Some(c) && c.name == name),
            decreases 64 - i,
        {
            let cell = self.board[i];
            if let Some(c) = cell {
                if c.name == name {
                    proof {
                        assert(i % 8 < 8 && i / 8 < 8);
                        assert((i / 8) * 8 + (i % 8) == i) by (nonlinear_arith)
                            requires
                                0 <= i < 64,
                        ;
                    }
                    return Some((i % 8, i / 8));
                }
            }
            i = i + 1;
        }
        proof {
            assert forall|x: int, y: int| pos_in_bounds(x, y) implies !(#[trigger] self.at(x, y)
                matches Some(c) && c.name == name) by {
                let k = y * 8 + x;
                assert(0 <= k < 64) by (nonlinear_arith)
                    requires
                        0 <= x < 8,
                        0 <= y < 8,
                        k == y * 8 + x,
                ;
            }
        }
        None
    }

    /// The checker of the player to move standing at `pos`, if one does.
    pub fn find_checker(&self, pos: &(usize, usize)) -> (r: Option<&Checker>)
        requires
            self.wf(),
        ensures
            r is Some <==> board_own_at(self.board@, self.turn_of, pos.0 as int, pos.1 as int),
            r matches Some(c) ==> self.at(pos.0 as int, pos.1 as int) == Some(*c),
    {
        if pos.0 >= 8 || pos.1 >= 8 {
            return None;
        }
        let idx = pos.1 * 8 + pos.0;
        let cell = &self.board[idx];
        match cell {
            Some(c) => {
                if c.owner == self.turn_of {
                    Some(c)
                } else {
                    None
                }
            },
            None => None,
        }
    }

    /// Whether `pos` lies on the playable diagonal of the board.
    pub fn is_cell_in_any_path(&self, pos: &(usize, usize)) -> (r: bool)
        ensures
            r == pos_on_path(pos.0 as int, pos.1 as int),
    {
        pos.0 < BOARD_SIZE && pos.1 < BOARD_SIZE && (pos.0 + pos.1) % 2 == 1
    }

    /// Whether `pos` is a playable cell holding no checker.
    pub fn is_cell_empty(&self, pos: &(usize, usize)) -> (r: bool)
        requires
            self.wf(),
        ensures
            r == board_empty_at(self.board@, pos.0 as int, pos.1 as int),
    {
        if !self.is_cell_in_any_path(pos) {
            return false;
        }
        let idx = pos.1 * 8 + pos.0;
        self.board[idx].is_none()
    }

    /// `pos` itself when it lies on the playable diagonal, nothing
    /// otherwise.
    pub fn verify_cell_pos(&self, pos: (usize, usize)) -> (r: Option<(usize, usize)>)
        ensures
            pos_on_path(pos.0 as int, pos.1 as int) ==> r == Some(pos),
            !pos_on_path(pos.0 as int, pos.1 as int) ==> r is None,
    {
        if self.is_cell_in_any_path(&pos) {
            Some(pos)
        } else {
            None
        }
    }

    /// Decide one step of the scan at the cell `(x, y)`: what it does to
    /// the remembered landing cell, whether the walk stops, and with what.
    /// `next_cell_pos` is the cell one step farther along the ray, when
    /// that cell lies on the playable diagonal.
    fn find_possible_move_pos(
        &self,
        x: usize,
        y: usize,
        next_cell_pos: Option<(usize, usize)>,
        last_possible_move_loc: &mut Option<(usize, usize)>,
    ) -> (r: FindPossibleMoveResult)
        requires
            self.wf(),
            x < 8,
            y < 8,
        ensures
            r.stop ==> *final(last_possible_move_loc) == *old(last_possible_move_loc),
            board_enemy_at(self.board@, self.turn_of, x as int, y as int) && next_cell_pos is Some
                && board_empty_at(
                self.board@,
                next_cell_pos.unwrap().0 as int,
                next_cell_pos.unwrap().1 as int,
            ) ==> r.stop && r.final_pos == next_cell_pos,
            board_enemy_at(self.board@, self.turn_of, x as int, y as int) && (next_cell_pos is None
                || !board_empty_at(
                self.board@,
                next_cell_pos.unwrap().0 as int,
                next_cell_pos.unwrap().1 as int,
            )) ==> r.stop && r.final_pos == *old(last_possible_move_loc),
            board_own_at(self.board@, self.turn_of, x as int, y as int) ==> r.stop && r.final_pos
                == *old(last_possible_move_loc),
            board_at(self.board@, x as int, y as int) is None && next_cell_pos is None ==> r.stop
                && r.final_pos == Some((x, y)),
            board_at(self.board@, x as int, y as int) is None && next_cell_pos is Some ==> !r.stop
                && r.final_pos is None && *final(last_possible_move_loc) == Some((x, y)),
    {
        let idx = y * 8 + x;
        let cell = self.board[idx];
        if let Some(c) = cell {
            if c.owner != self.turn_of {
                // encountered an enemy checker: can the scan jump over it?
                match next_cell_pos {
                    None => {
                        // there is no playable cell behind it
                        FindPossibleMoveResult { final_pos: *last_possible_move_loc, stop: true }
                    },
                    Some(np) => {
                        if self.is_cell_empty(&np) {
                            FindPossibleMoveResult { final_pos: Some(np), stop: true }
                        } else {
                            FindPossibleMoveResult {
                                final_pos: *last_possible_move_loc,
                                stop: true,
                            }
                        }
                    },
                }
            } else {
                // a checker of the same team blocks the ray
                FindPossibleMoveResult { final_pos: *last_possible_move_loc, stop: true }
            }
        } else {
            // an empty cell; with no playable cell beyond it, it is the
            // landing, otherwise remember it and walk on
            if next_cell_pos.is_none() {
                FindPossibleMoveResult { final_pos: Some((x, y)), stop: true }
            } else {
                *last_possible_move_loc = Some((x, y));
                FindPossibleMoveResult { final_pos: None, stop: false }
            }
        }
    }

    /// Walk outward from `pos` in one direction and resolve the landing
    /// cell, exactly as the scan describes it.
    fn direction_landing(&self, pos: (usize, usize), dir: Direction) -> (r: Option<(usize, usize)>)
        requires
            self.wf(),
            pos.0 < 8,
            pos.1 < 8,
        ensures
            pos_view(r) == spec_landing(
                self.board@,
                self.turn_of,
                pos.0 as int,
                pos.1 as int,
                dir,
            ),
            r matches Some(p) ==> p.0 < 8 && p.1 < 8,
    {
        let (dx, dy) = dir.offsets();
        let mut cx: i64 = pos.0 as i64 + dx;
        let mut cy: i64 = pos.1 as i64 + dy;
        let mut last: Option<(usize, usize)> = None;
        let ghost target = spec_landing(self.board@, self.turn_of, pos.0 as int, pos.1 as int, dir);
        loop
            invariant
                self.wf(),
                target == spec_landing(self.board@, self.turn_of, pos.0 as int, pos.1 as int, dir),
                dx == dir.dx(),
                dy == dir.dy(),
                -1 <= cx <= 8,
                -1 <= cy <= 8,
                target == scan_from(
                    self.board@,
                    self.turn_of,
                    cx as int,
                    cy as int,
                    dx as int,
                    dy as int,
                    pos_view(last),
                ),
                last matches Some(p) ==> p.0 < 8 && p.1 < 8,
            decreases (if dx >= 0 {
                8 - cx
            } else {
                cx + 1
            }),
        {
            if cx < 0 || cx >= 8 || cy < 0 || cy >= 8 {
                return None;
            }
            let cxu = cx as usize;
            let cyu = cy as usize;
            let nx2 = cx + dx;
            let ny2 = cy + dy;
            let next_cell_pos: Option<(usize, usize)> = if 0 <= nx2 && nx2 < 8 && 0 <= ny2 && ny2
                < 8 {
                self.verify_cell_pos((nx2 as usize, ny2 as usize))
            } else {
                None
            };
            proof {
                assert(next_cell_pos is Some <==> pos_on_path(nx2 as int, ny2 as int));
                if next_cell_pos is Some {
                    assert(next_cell_pos.unwrap() == ((nx2 as usize, ny2 as usize)));
                }
            }
            let step = self.find_possible_move_pos(cxu, cyu, next_cell_pos, &mut last);
            if step.stop {
                return step.final_pos;
            }
            cx = nx2;
            cy = ny2;
        }
    }

    /// Recompute the transient move list for the checker standing at
    /// `pos`: one entry per direction whose scan resolves a landing, in
    /// the fixed direction order.
    pub fn set_possible_moves(&mut self, pos: (usize, usize))
        requires
            old(self).wf(),
            pos.0 < 8,
            pos.1 < 8,
        ensures
            final(self).wf(),
            final(self).board@ == old(self).board@,
            final(self).turn_of == old(self).turn_of,
            final(self).possible_moves@ == spec_moves(
                old(self).board@,
                old(self).turn_of,
                pos.0 as int,
                pos.1 as int,
            ),
    {
        let l_dl = self.direction_landing(pos, Direction::DownLeft);
        let l_dr = self.direction_landing(pos, Direction::DownRight);
        let l_ul = self.direction_landing(pos, Direction::UpLeft);
        let l_ur = self.direction_landing(pos, Direction::UpRight);
        self.possible_moves.clear();
        if let Some(lp) = l_dl {
            self.possible_moves.push(PossibleMove { dir: Direction::DownLeft, final_pos: lp });
        }
        if let Some(lp) = l_dr {
            self.possible_moves.push(PossibleMove { dir: Direction::DownRight, final_pos: lp });
        }
        if let Some(lp) = l_ul {
            self.possible_moves.push(PossibleMove { dir: Direction::UpLeft, final_pos: lp });
        }
        if let Some(lp) = l_ur {
            self.possible_moves.push(PossibleMove { dir: Direction::UpRight, final_pos: lp });
        }
        proof {
            let b = self.board@;
            let mp = self.turn_of;
            let sx = pos.0 as int;
            let sy = pos.1 as int;
            assert(self.possible_moves@ =~= spec_moves(b, mp, sx, sy));
        }
    }

    /// An empty board with Math to move; a fixture for setting up
    /// positions.
    pub fn empty() -> (r: Self)
        ensures
            r.wf(),
            r.turn_of == Player::Math,
            r.possible_moves@.len() == 0,
            forall|x: int, y: int| pos_in_bounds(x, y) ==> #[trigger] r.at(x, y) is None,
    {
        let mut board: Vec<Option<Checker>> = Vec::new();
        let mut i: usize = 0;
        while i < 64
            invariant
                i <= 64,
                board@.len() == i,
                forall|k: int| 0 <= k < i ==> (#[trigger] board@[k]) is None,
            decreases 64 - i,
        {
            board.push(None);
            i = i + 1;
        }
        let r = Checkers { board, turn_of: Player::Math, possible_moves: Vec::new() };
        proof {
            assert forall|x: int, y: int| pos_in_bounds(x, y) implies #[trigger] r.at(x, y)
                is None by {
                lemma_idx_coords(x, y);
            }
        }
        r
    }

    /// Put a checker on a free dark square under a fresh name; a fixture
    /// for setting up positions.
    pub fn place_checker(&mut self, pos: (usize, usize), owner: Player, name: char)
        requires
            old(self).wf(),
            pos_on_path(pos.0 as int, pos.1 as int),
            board_at(old(self).board@, pos.0 as int, pos.1 as int) is None,
            forall|i: int|
                0 <= i < 64 && (#[trigger] old(self).board@[i]) is Some ==> old(
                    self,
                ).board@[i].unwrap().name != name,
        ensures
            final(self).wf(),
            final(self).turn_of == old(self).turn_of,
            final(self).possible_moves == old(self).possible_moves,
            final(self).at(pos.0 as int, pos.1 as int) == Some(
                Checker { king: false, owner, name },
            ),
            forall|x: int, y: int|
                pos_in_bounds(x, y) && !(x == pos.0 && y == pos.1) ==> #[trigger] final(self).at(
                    x,
                    y,
                ) == old(self).at(x, y),
    {
        proof {
            lemma_idx_coords(pos.0 as int, pos.1 as int);
        }
        let idx = pos.1 * 8 + pos.0;
        self.board[idx] = Some(Checker::new(owner, name));
        proof {
            assert forall|x: int, y: int|
                pos_in_bounds(x, y) && !(x == pos.0 && y == pos.1) implies #[trigger] self.at(x, y)
                == old(self).at(x, y) by {
                lemma_idx_coords(x, y);
                assert(y * 8 + x != idx) by (nonlinear_arith)
                    requires
                        0 <= x < 8,
                        0 <= y < 8,
                        idx == (pos.1 as int) * 8 + pos.0 as int,
                        pos.0 < 8,
                        pos.1 < 8,
                        !(x == pos.0 && y == pos.1),
                ;
            }
            assert forall|i: int|
                0 <= i < 64 && (#[trigger] self.board@[i]) is Some implies ((i % 8) + (i / 8)) % 2
                == 1 by {
                if i != idx {
                    assert(self.board@[i] == old(self).board@[i]);
                }
            }
            assert forall|i: int, j: int|
                0 <= i < 64 && 0 <= j < 64 && i != j && (#[trigger] self.board@[i]) is Some && (
                #[trigger] self.board@[j]) is Some implies self.board@[i].unwrap().name
                != self.board@[j].unwrap().name by {
                if i != idx {
                    assert(self.board@[i] == old(self).board@[i]);
                }
                if j != idx {
                    assert(self.board@[j] == old(self).board@[j]);
                }
            }
        }
    }

    /// Hand the turn to a chosen player; a fixture for setting up
    /// positions.
    pub fn set_turn(&mut self, player: Player)
        ensures
            final(self).turn_of == player,
            final(self).board == old(self).board,
            final(self).possible_moves == old(self).possible_moves,
    {
        self.turn_of = player;
    }

    /// The player to move has lost when no checker of theirs resolves a
    /// landing in any direction — in particular when none is left; the
    /// opponent has then won.
    pub fn is_won(&self) -> (r: bool)
        requires
            self.wf(),
        ensures
            r == board_stuck(self.board@, self.turn_of),
    {
        let mut i: usize = 0;
        while i < 64
            invariant
                i <= 64,
                self.wf(),
                forall|k: int|
                    0 <= k < i && (#[trigger] self.board@[k]) is Some
                        && self.board@[k].unwrap().owner == self.turn_of ==> spec_landing(
                        self.board@,
                        self.turn_of,
                        k % 8,
                        k / 8,
                        Direction::DownLeft,
                    ) is None && spec_landing(
                        self.board@,
                        self.turn_of,
                        k % 8,
                        k / 8,
                        Direction::DownRight,
                    ) is None && spec_landing(
                        self.board@,
                        self.turn_of,
                        k % 8,
                        k / 8,
                        Direction::UpLeft,
                    ) is None && spec_landing(
                        self.board@,
                        self.turn_of,
                        k % 8,
                        k / 8,
                        Direction::UpRight,
                    ) is None,
            decreases 64 - i,
        {
            let cell = self.board[i];
            if let Some(c) = cell {
                if c.owner == self.turn_of {
                    let x = i % 8;
                    let y = i / 8;
                    proof {
                        lemma_idx_coords(x as int, y as int);
                        assert((y * 8 + x) as int == i as int) by (nonlinear_arith)
                            requires
                                0 <= i < 64,
                                x == i % 8,
                                y == i / 8,
                        ;
                    }
                    let stuck_here = self.direction_landing((x, y), Direction::DownLeft).is_none()
                        && self.direction_landing((x, y), Direction::DownRight).is_none()
                        && self.direction_landing((x, y), Direction::UpLeft).is_none()
                        && self.direction_landing((x, y), Direction::UpRight).is_none();
                    if !stuck_here {
                        proof {
                            assert(board_own_at(self.board@, self.turn_of, x as int, y as int));
                        }
                        return false;
                    }
                }
            }
            i = i + 1;
        }
        proof {
            assert forall|x: int, y: int|
                #[trigger] board_own_at(self.board@, self.turn_of, x, y) implies spec_landing(
                self.board@,
                self.turn_of,
                x,
                y,
                Direction::DownLeft,
            ) is None && spec_landing(
                self.board@,
                self.turn_of,
                x,
                y,
                Direction::DownRight,
            ) is None && spec_landing(self.board@, self.turn_of, x, y, Direction::UpLeft) is None
                && spec_landing(self.board@, self.turn_of, x, y, Direction::UpRight) is None by {
                lemma_idx_coords(x, y);
                let k = y * 8 + x;
                assert(self.board@[k] is Some && self.board@[k].unwrap().owner == self.turn_of);
            }
        }
        true
    }

    /// Select the checker called `name`, move it along `dir` to the landing
    /// the scan resolves, remove the enemy checker it jumped over, and pass
    /// the turn to the other player.
    pub fn make_move(&mut self, name: char, dir: Direction) -> (res: Result<(), CheckersError>)
        requires
            old(self).wf(),
        ensures
            final(self).wf(),
            !selection_ok(old(self).board@, old(self).turn_of, name) ==> res == Err::<
                (),
                CheckersError,
            >(CheckersError::IllegalSelection) && *final(self) == *old(self),
            selection_ok(old(self).board@, old(self).turn_of, name) && spec_moves(
                old(self).board@,
                old(self).turn_of,
                name_position(old(self).board@, name).unwrap().0,
                name_position(old(self).board@, name).unwrap().1,
            ).len() == 0 ==> res == Err::<(), CheckersError>(CheckersError::NoLegalMove) && final(self).board@ == old(self).board@ && final(self).turn_of == old(self).turn_of,
            selection_ok(old(self).board@, old(self).turn_of, name) && spec_moves(
                old(self).board@,
                old(self).turn_of,
                name_position(old(self).board@, name).unwrap().0,
                name_position(old(self).board@, name).unwrap().1,
            ).len() > 0 && spec_landing(
                old(self).board@,
                old(self).turn_of,
                name_position(old(self).board@, name).unwrap().0,
                name_position(old(self).board@, name).unwrap().1,
                dir,
            ) is None ==> res == Err::<(), CheckersError>(CheckersError::IllegalDirection) && final(self).board@ == old(self).board@ && final(self).turn_of == old(self).turn_of,
            selection_ok(old(self).board@, old(self).turn_of, name) && spec_landing(
                old(self).board@,
                old(self).turn_of,
                name_position(old(self).board@, name).unwrap().0,
                name_position(old(self).board@, name).unwrap().1,
                dir,
            ) is Some ==> res == Ok::<(), CheckersError>(()) && moved_board_ok(
                old(self).board@,
                old(self).turn_of,
                name_position(old(self).board@, name).unwrap(),
                spec_landing(
                    old(self).board@,
                    old(self).turn_of,
                    name_position(old(self).board@, name).unwrap().0,
                    name_position(old(self).board@, name).unwrap().1,
                    dir,
                ).unwrap(),
                dir,
                final(self).board@,
            ) && final(self).turn_of == old(self).turn_of.spec_other(),
            selection_ok(old(self).board@, old(self).turn_of, name) ==> final(self)
                .possible_moves@ == spec_moves(
                old(self).board@,
                old(self).turn_of,
                name_position(old(self).board@, name).unwrap().0,
                name_position(old(self).board@, name).unwrap().1,
            ),
    {
        let ghost b0 = self.board@;
        let ghost mp0 = self.turn_of;
        let pos = match self.find_checker_position(name) {
            Some(p) => p,
            None => {
                proof {
                    assert(name_position(b0, name) is None) by {
                        if exists|p: (int, int)|
                            pos_in_bounds(p.0, p.1) && (#[trigger] board_at(b0, p.0, p.1)
                                matches Some(c) && c.name == name) {
                            let p = choose|p: (int, int)|
                                pos_in_bounds(p.0, p.1) && (#[trigger] board_at(b0, p.0, p.1)
                                    matches Some(c) && c.name == name);
                            assert(!(self.at(p.0, p.1) matches Some(c) && c.name == name));
                        }
                    }
                }
                return Err(CheckersError::IllegalSelection);
            },
        };
        let ghost sp = (pos.0 as int, pos.1 as int);
        proof {
            assert(board_at(b0, sp.0, sp.1) matches Some(c) && c.name == name);
            assert(name_position(b0, name) matches Some(q) && q == sp) by {
                assert(pos_in_bounds(sp.0, sp.1) && (board_at(b0, sp.0, sp.1) matches Some(c)
                    && c.name == name));
                let q = choose|p: (int, int)|
                    pos_in_bounds(p.0, p.1) && (#[trigger] board_at(b0, p.0, p.1) matches Some(c)
                        && c.name == name);
                if q != sp {
                    lemma_idx_coords(q.0, q.1);
                    lemma_idx_coords(sp.0, sp.1);
                    assert(q.1 * 8 + q.0 != sp.1 * 8 + sp.0) by (nonlinear_arith)
                        requires
                            0 <= q.0 < 8,
                            0 <= q.1 < 8,
                            0 <= sp.0 < 8,
                            0 <= sp.1 < 8,
                            q != sp,
                    ;
                }
            }
        }
        let own = self.find_checker(&pos).is_some();
        if !own {
            return Err(CheckersError::IllegalSelection);
        }
        self.set_possible_moves(pos);
        if self.possible_moves.len() == 0 {
            return Err(CheckersError::NoLegalMove);
        }
        let landing = self.direction_landing(pos, dir);
        let lp = match landing {
            Some(p) => p,
            None => {
                return Err(CheckersError::IllegalDirection);
            },
        };
        let ghost lpi = (lp.0 as int, lp.1 as int);
        let (dx, dy) = dir.offsets();
        proof {
            lemma_idx_coords(sp.0, sp.1);
            lemma_idx_coords(lpi.0, lpi.1);
            lemma_landing_not_start(b0, mp0, sp.0, sp.1, dir);
        }
        let ghost b_before = self.board@;
        let src_idx = pos.1 * 8 + pos.0;
        let c = self.board[src_idx].unwrap();
        self.board[src_idx] = None;
        let mx = lp.0 as i64 - dx;
        let my = lp.1 as i64 - dy;
        let mut captured = false;
        if 0 <= mx && mx < 8 && 0 <= my && my < 8 {
            proof {
                lemma_idx_coords(mx as int, my as int);
            }
            let mid_idx = (my as usize) * 8 + (mx as usize);
            let mid = self.board[mid_idx];
            if let Some(mc) = mid {
                if mc.owner != self.turn_of {
                    self.board[mid_idx] = None;
                    captured = true;
                }
            }
        }
        let dst_idx = lp.1 * 8 + lp.0;
        self.board[dst_idx] = Some(c);
        let next_turn = self.turn_of.other();
        self.turn_of = next_turn;
        proof {
            lemma_landing_on_path(b0, mp0, sp.0, sp.1, dir);
            assert(pos_on_path(lpi.0, lpi.1));
            assert forall|i: int|
                0 <= i < 64 && (#[trigger] self.board@[i]) is Some implies ((i % 8) + (i / 8)) % 2
                == 1 by {
                if i != lpi.1 * 8 + lpi.0 {
                    assert(self.board@[i] == b0[i]);
                } else {
                    assert(i % 8 == lpi.0 && i / 8 == lpi.1);
                }
            }
            assert forall|i: int, j: int|
                0 <= i < 64 && 0 <= j < 64 && i != j && (#[trigger] self.board@[i]) is Some && (
                #[trigger] self.board@[j]) is Some implies self.board@[i].unwrap().name
                != self.board@[j].unwrap().name by {
                let src = sp.1 * 8 + sp.0;
                let dst = lpi.1 * 8 + lpi.0;
                if i != dst && j != dst {
                    assert(self.board@[i] == b0[i] || self.board@[i] is None);
                    assert(self.board@[j] == b0[j] || self.board@[j] is None);
                } else if i == dst {
                    assert(self.board@[j] == b0[j] || self.board@[j] is None);
                    assert(self.board@[i].unwrap().name == b0[src].unwrap().name);
                    assert(j != src) by {
                        assert(self.board@[src] is Some ==> src == dst);
                    }
                } else {
                    assert(self.board@[i] == b0[i] || self.board@[i] is None);
                    assert(self.board@[j].unwrap().name == b0[src].unwrap().name);
                    assert(i != src) by {
                        assert(self.board@[src] is Some ==> src == dst);
                    }
                }
            }
            assert(moved_board_ok(b0, mp0, sp, lpi, dir, self.board@)) by {
                assert forall|x: int, y: int|
                    pos_in_bounds(x, y) && (x, y) != sp && (x, y) != lpi && (x, y) != (
                    lpi.0 - dir.dx(),
                    lpi.1 - dir.dy(),
                ) implies #[trigger] board_at(self.board@, x, y) == board_at(b0, x, y) by {
                    lemma_idx_coords(x, y);
                    assert(y * 8 + x != sp.1 * 8 + sp.0) by (nonlinear_arith)
                        requires
                            0 <= x < 8,
                            0 <= y < 8,
                            0 <= sp.0 < 8,
                            0 <= sp.1 < 8,
                            (x, y) != sp,
                    ;
                    assert(y * 8 + x != lpi.1 * 8 + lpi.0) by (nonlinear_arith)
                        requires
                            0 <= x < 8,
                            0 <= y < 8,
                            0 <= lpi.0 < 8,
                            0 <= lpi.1 < 8,
                            (x, y) != lpi,
                    ;
                    if 0 <= lpi.0 - dir.dx() < 8 && 0 <= lpi.1 - dir.dy() < 8 {
                        assert(y * 8 + x != (lpi.1 - dir.dy()) * 8 + (lpi.0 - dir.dx()))
                            by (nonlinear_arith)
                            requires
                                0 <= x < 8,
                                0 <= y < 8,
                                0 <= lpi.0 - dir.dx() < 8,
                                0 <= lpi.1 - dir.dy() < 8,
                                (x, y) != (lpi.0 - dir.dx(), lpi.1 - dir.dy()),
                        ;
                    }
                }
            }
        }
        Ok(())
    }
}

} // verus!
