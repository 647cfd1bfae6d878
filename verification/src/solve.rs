use vstd::prelude::*;
use crate::field::{Checker, Field, Position, checker_in_bounds, clone_cache};

verus! {

/// Weight of the material balance: the difference in piece counts is scaled so
/// that a full material advantage is worth this much.
pub const CHECKER_DIFF_PRICE: isize = 2000;
/// Worth of every king.
pub const KING_PRICE: isize = 500;
/// Worth of every row a man has advanced towards its crowning row.
pub const NEAR_TO_KING_PRICE: isize = 10;
/// Threshold at or beyond which a position counts as decided.
pub const WIN_PRICE: isize = 99999;

/// The cell cache as rows of cells: `grid(c)[row][column]`.
pub type Grid = Seq<Seq<isize>>;

/// A move as a plain value: destination column, destination row, and the cells
/// (column, row) of the captured pieces in the order they are jumped.
pub type MoveV = (usize, usize, Seq<(usize, usize)>);

pub open spec fn grid(c: [[isize; 8]; 8]) -> Grid {
    Seq::new(8, |r: int| c[r]@)
}

pub open spec fn grid_ok(g: Grid) -> bool {
    &&& g.len() == 8
    &&& forall|r: int| 0 <= r < 8 ==> #[trigger] g[r].len() == 8
}

pub open spec fn on_board(x: int, y: int) -> bool {
    0 <= x < 8 && 0 <= y < 8
}

/// The value in cell (column `x`, row `y`).
pub open spec fn at(g: Grid, x: int, y: int) -> isize {
    g[y][x]
}

pub open spec fn free(g: Grid, x: int, y: int) -> bool {
    on_board(x, y) && at(g, x, y) == 0
}

pub open spec fn sign(v: int) -> int {
    if v > 0 {
        1
    } else if v < 0 {
        -1
    } else {
        0
    }
}

/// A cell value holds a piece of the side opposite to `color`.
pub open spec fn is_enemy(v: isize, color: int) -> bool {
    v != 0 && sign(v as int) != color
}

pub open spec fn color_ok(color: int) -> bool {
    color == 1 || color == -1
}

/// `g` with cell (column `x`, row `y`) set to `v`.
pub open spec fn put(g: Grid, x: int, y: int, v: isize) -> Grid {
    g.update(y, g[y].update(x, v))
}

/// `a` moved `k` cells in direction `d` (positive or negative).
pub open spec fn shift(a: int, d: int, k: int) -> int {
    if d > 0 {
        a + k
    } else {
        a - k
    }
}

/// The four diagonal directions in the order the search tries them:
/// (1,-1), (-1,-1), (-1,1), (1,1).
pub open spec fn dir_x(d: int) -> int {
    if d == 0 || d == 3 {
        1
    } else {
        -1
    }
}

pub open spec fn dir_y(d: int) -> int {
    if d == 0 || d == 1 {
        -1
    } else {
        1
    }
}

// ---------------------------------------------------------------------------
// Counting enemy pieces: the measure by which capture sequences terminate.

pub open spec fn enemy_bit(v: isize, color: int) -> nat {
    if is_enemy(v, color) {
        1
    } else {
        0
    }
}

pub open spec fn row_enemies(row: Seq<isize>, color: int, n: int) -> nat
    decreases n,
{
    if n <= 0 {
        0
    } else {
        row_enemies(row, color, n - 1) + enemy_bit(row[n - 1], color)
    }
}

pub open spec fn grid_enemies_upto(g: Grid, color: int, n: int) -> nat
    decreases n,
{
    if n <= 0 {
        0
    } else {
        grid_enemies_upto(g, color, n - 1) + row_enemies(g[n - 1], color, 8)
    }
}

/// The number of cells that hold a piece of the side opposite to `color`.
pub open spec fn grid_enemies(g: Grid, color: int) -> nat {
    grid_enemies_upto(g, color, 8)
}

proof fn lemma_row_update(row: Seq<isize>, color: int, n: int, x: int, v: isize)
    requires
        0 <= x < row.len(),
        n <= row.len(),
    ensures
        x < n ==> row_enemies(row.update(x, v), color, n) + enemy_bit(row[x], color)
            == row_enemies(row, color, n) + enemy_bit(v, color),
        x >= n ==> row_enemies(row.update(x, v), color, n) == row_enemies(row, color, n),
    decreases n,
{
    if n > 0 {
        lemma_row_update(row, color, n - 1, x, v);
    }
}

proof fn lemma_grid_update_upto(g: Grid, color: int, n: int, x: int, y: int, v: isize)
    requires
        grid_ok(g),
        on_board(x, y),
        n <= 8,
    ensures
        y < n ==> grid_enemies_upto(put(g, x, y, v), color, n) + enemy_bit(at(g, x, y), color)
            == grid_enemies_upto(g, color, n) + enemy_bit(v, color),
        y >= n ==> grid_enemies_upto(put(g, x, y, v), color, n) == grid_enemies_upto(g, color, n),
    decreases n,
{
    if n > 0 {
        lemma_grid_update_upto(g, color, n - 1, x, y, v);
        let g2 = put(g, x, y, v);
        if n - 1 == y {
            lemma_row_update(g[y], color, 8, x, v);
        } else {
            assert(g2[n - 1] == g[n - 1]);
        }
    }
}

/// Setting one cell changes the enemy count by what leaves and what enters that cell.
proof fn lemma_put_enemies(g: Grid, color: int, x: int, y: int, v: isize)
    requires
        grid_ok(g),
        on_board(x, y),
    ensures
        grid_enemies(put(g, x, y, v), color) + enemy_bit(at(g, x, y), color) == grid_enemies(g, color)
            + enemy_bit(v, color),
        grid_ok(put(g, x, y, v)),
        at(put(g, x, y, v), x, y) == v,
        forall|a: int, b: int| on_board(a, b) && (a != x || b != y) ==> #[trigger] at(put(g, x, y, v), a, b) == at(g, a, b),
{
    lemma_grid_update_upto(g, color, 8, x, y, v);
}

// ---------------------------------------------------------------------------
// Plain moves.

/// `(x, y)` as a one-element list when that cell is free, else empty.
pub open spec fn step_if_free(g: Grid, x: int, y: int) -> Seq<(usize, usize)> {
    if free(g, x, y) {
        seq![(x as usize, y as usize)]
    } else {
        seq![]
    }
}

/// The free cells from distance `k` on along the diagonal (`dx`, `dy`) from
/// (`x`, `y`), up to the first cell that is occupied or off the board.
pub open spec fn ray(g: Grid, x: int, y: int, dx: int, dy: int, k: int) -> Seq<(usize, usize)>
    decreases 8 - k,
{
    if k < 1 || k >= 8 || !free(g, shift(x, dx, k), shift(y, dy, k)) {
        seq![]
    } else {
        seq![(shift(x, dx, k) as usize, shift(y, dy, k) as usize)] + ray(g, x, y, dx, dy, k + 1)
    }
}

/// Non-capturing moves: a man steps one cell diagonally forward (white towards
/// row 0, black towards row 7); a king slides any distance along the four
/// diagonals, in the order (+,+), (+,-), (-,+), (-,-).
pub open spec fn simple_moves_spec(g: Grid, x: int, y: int, color: int, king: bool) -> Seq<(usize, usize)> {
    if !king {
        let ny = if color == 1 {
            y - 1
        } else {
            y + 1
        };
        step_if_free(g, x - 1, ny) + step_if_free(g, x + 1, ny)
    } else {
        ray(g, x, y, 1, 1, 1) + ray(g, x, y, 1, -1, 1) + ray(g, x, y, -1, 1, 1) + ray(g, x, y, -1, -1, 1)
    }
}

// ---------------------------------------------------------------------------
// Capturing moves.

/// The capture sequences that start at (`x`, `y`) for a piece of side `color`,
/// with the pieces in `acc` already taken and, for a king, `prev` the direction
/// of the jump that brought it here (it may not turn straight back).
/// Each result is the final cell and the full list of captured cells; a
/// sequence stops only where no further capture is possible.
pub open spec fn kill_moves_spec(
    g: Grid,
    x: int,
    y: int,
    color: int,
    king: bool,
    acc: Seq<(usize, usize)>,
    prev: Option<(int, int)>,
) -> Seq<MoveV>
    decreases grid_enemies(g, color), 5int, 0int,
{
    kill_dirs(g, x, y, color, king, acc, prev, 4)
}

/// The capture sequences of the first `n` directions, concatenated.
pub open spec fn kill_dirs(
    g: Grid,
    x: int,
    y: int,
    color: int,
    king: bool,
    acc: Seq<(usize, usize)>,
    prev: Option<(int, int)>,
    n: int,
) -> Seq<MoveV>
    decreases grid_enemies(g, color), 4int, n,
{
    if n <= 0 {
        seq![]
    } else {
        kill_dirs(g, x, y, color, king, acc, prev, n - 1) + kill_dir(
            g,
            x,
            y,
            color,
            king,
            acc,
            prev,
            n - 1,
        )
    }
}

/// The capture sequences that begin with a jump in direction `d`.
pub open spec fn kill_dir(
    g: Grid,
    x: int,
    y: int,
    color: int,
    king: bool,
    acc: Seq<(usize, usize)>,
    prev: Option<(int, int)>,
    d: int,
) -> Seq<MoveV>
    decreases grid_enemies(g, color), 3int, 0int,
{
    if king {
        if prev == Some((-dir_x(d), -dir_y(d))) {
            seq![]
        } else {
            king_scan(g, x, y, color, acc, d, 1)
        }
    } else {
        man_jump(g, x, y, color, acc, d)
    }
}

/// The conditions under which a capture search step is meaningful.
pub open spec fn search_ok(g: Grid, x: int, y: int, color: int) -> bool {
    grid_ok(g) && color_ok(color) && on_board(x, y)
}

/// A man jumps over an adjacent enemy in direction `d` onto the free cell behind it.
pub open spec fn man_jump(g: Grid, x: int, y: int, color: int, acc: Seq<(usize, usize)>, d: int) -> Seq<MoveV>
    decreases grid_enemies(g, color), 2int, 0int,
{
    let mx = x + dir_x(d);
    let my = y + dir_y(d);
    let tx = x + 2 * dir_x(d);
    let ty = y + 2 * dir_y(d);
    if search_ok(g, x, y, color) && on_board(tx, ty) && is_enemy(at(g, mx, my), color) && at(g, tx, ty)
        == 0 {
        let killed = acc.push((mx as usize, my as usize));
        let g2 = put(put(put(g, x, y, 0), mx, my, 0), tx, ty, color as isize);
        proof {
            lemma_jump_enemies(g, x, y, color, mx, my, tx, ty);
        }
        let rest = kill_moves_spec(g2, tx, ty, color, false, killed, None);
        if rest.len() == 0 {
            seq![(tx as usize, ty as usize, killed)]
        } else {
            rest
        }
    } else {
        seq![]
    }
}

/// A king looks along direction `d` from distance `mul` on for the first piece.
pub open spec fn king_scan(g: Grid, x: int, y: int, color: int, acc: Seq<(usize, usize)>, d: int, mul: int) -> Seq<MoveV>
    decreases grid_enemies(g, color), 2int, 8 - mul,
{
    let px = dir_x(d);
    let py = dir_y(d);
    if !search_ok(g, x, y, color) || mul < 1 || mul >= 8 || !on_board(
        shift(x, px, mul + 1),
        shift(y, py, mul + 1),
    ) {
        seq![]
    } else {
        let ex = shift(x, px, mul);
        let ey = shift(y, py, mul);
        let c = at(g, ex, ey);
        if c == 0 {
            king_scan(g, x, y, color, acc, d, mul + 1)
        } else if !is_enemy(c, color) {
            seq![]
        } else {
            let cells = landing(g, x, y, px, py, mul + 1);
            if cells.len() == 0 {
                seq![]
            } else {
                let killed = acc.push((ex as usize, ey as usize));
                let g2 = put(put(g, x, y, 0), ex, ey, 0);
                proof {
                    lemma_king_jump_enemies(g, x, y, color, ex, ey);
                }
                let cont = king_continue(g2, color, killed, d, cells, cells.len() as int);
                if cont.len() == 0 {
                    cells.map_values(|c: (usize, usize)| (c.0, c.1, killed))
                } else {
                    cont
                }
            }
        }
    }
}

/// The free cells from distance `k` on in direction (`px`, `py`), up to the
/// first occupied cell or the edge: where a king may land behind a captured piece.
pub open spec fn landing(g: Grid, x: int, y: int, px: int, py: int, k: int) -> Seq<(usize, usize)>
    decreases 8 - k,
{
    if k < 1 || k >= 8 || !free(g, shift(x, px, k), shift(y, py, k)) {
        seq![]
    } else {
        seq![(shift(x, px, k) as usize, shift(y, py, k) as usize)] + landing(g, x, y, px, py, k + 1)
    }
}

proof fn lemma_landing_on_board(g: Grid, x: int, y: int, px: int, py: int, k: int)
    ensures
        forall|i: int| 0 <= i < landing(g, x, y, px, py, k).len() ==> {
            let c = #[trigger] landing(g, x, y, px, py, k)[i];
            &&& on_board(c.0 as int, c.1 as int)
            &&& free(g, c.0 as int, c.1 as int)
            &&& px > 0 ==> c.0 >= x + k
            &&& px <= 0 ==> c.0 <= x - k
        },
    decreases 8 - k,
{
    if !(k < 1 || k >= 8 || !free(g, shift(x, px, k), shift(y, py, k))) {
        lemma_landing_on_board(g, x, y, px, py, k + 1);
        let l = landing(g, x, y, px, py, k);
        let r = landing(g, x, y, px, py, k + 1);
        assert forall|i: int| 0 <= i < l.len() implies {
            let c = #[trigger] l[i];
            &&& on_board(c.0 as int, c.1 as int)
            &&& free(g, c.0 as int, c.1 as int)
            &&& px > 0 ==> c.0 >= x + k
            &&& px <= 0 ==> c.0 <= x - k
        } by {
            if i > 0 {
                assert(l[i] == r[i - 1]);
            }
        }
    }
}

/// The capture sequences that continue from each of the first `n` landing cells.
pub open spec fn king_continue(
    g: Grid,
    color: int,
    killed: Seq<(usize, usize)>,
    d: int,
    cells: Seq<(usize, usize)>,
    n: int,
) -> Seq<MoveV>
    decreases grid_enemies(g, color), 6int, n,
{
    if n <= 0 || n > cells.len() {
        seq![]
    } else {
        king_continue(g, color, killed, d, cells, n - 1) + kill_moves_spec(
            g,
            cells[n - 1].0 as int,
            cells[n - 1].1 as int,
            color,
            true,
            killed,
            Some((dir_x(d), dir_y(d))),
        )
    }
}

proof fn lemma_color_not_enemy(color: int)
    requires
        color_ok(color),
    ensures
        !is_enemy(color as isize, color),
        !is_enemy(0, color),
{
}

/// A man's jump removes an enemy from the board: the capture search terminates.
pub proof fn lemma_jump_enemies(g: Grid, x: int, y: int, color: int, mx: int, my: int, tx: int, ty: int)
    requires
        search_ok(g, x, y, color),
        on_board(tx, ty),
        on_board(mx, my),
        mx != x,
        tx != mx,
        is_enemy(at(g, mx, my), color),
    ensures
        grid_enemies(put(put(put(g, x, y, 0), mx, my, 0), tx, ty, color as isize), color) < grid_enemies(
            g,
            color,
        ),
        grid_ok(put(put(put(g, x, y, 0), mx, my, 0), tx, ty, color as isize)),
{
    let g1 = put(g, x, y, 0);
    let g2 = put(g1, mx, my, 0);
    lemma_put_enemies(g, color, x, y, 0);
    lemma_put_enemies(g1, color, mx, my, 0);
    lemma_put_enemies(g2, color, tx, ty, color as isize);
}

/// A king's jump removes an enemy from the board: the capture search terminates.
pub proof fn lemma_king_jump_enemies(g: Grid, x: int, y: int, color: int, ex: int, ey: int)
    requires
        search_ok(g, x, y, color),
        on_board(ex, ey),
        ex != x,
        is_enemy(at(g, ex, ey), color),
    ensures
        grid_enemies(put(put(g, x, y, 0), ex, ey, 0), color) < grid_enemies(g, color),
        grid_ok(put(put(g, x, y, 0), ex, ey, 0)),
{
    let g1 = put(g, x, y, 0);
    lemma_put_enemies(g, color, x, y, 0);
    lemma_put_enemies(g1, color, ex, ey, 0);
}

/// All moves of the piece at (`x`, `y`): its capture sequences when it has
/// any, else its plain moves (with an empty capture list).
pub open spec fn all_moves_spec(g: Grid, x: int, y: int, color: int, king: bool) -> Seq<MoveV> {
    let k = kill_moves_spec(g, x, y, color, king, seq![], None);
    if k.len() > 0 {
        k
    } else {
        simple_moves_spec(g, x, y, color, king).map_values(|p: (usize, usize)| (p.0, p.1, Seq::<(usize, usize)>::empty()))
    }
}

// ---------------------------------------------------------------------------
// Executable move generation.

/// The plain-value form of a list of moves.
pub open spec fn moves_view(v: Seq<(usize, usize, Box<Vec<(usize, usize)>>)>) -> Seq<MoveV> {
    v.map_values(|m: (usize, usize, Box<Vec<(usize, usize)>>)| (m.0, m.1, m.2@))
}

proof fn lemma_moves_view_push(v: Seq<(usize, usize, Box<Vec<(usize, usize)>>)>, m: (usize, usize, Box<Vec<(usize, usize)>>))
    ensures
        moves_view(v.push(m)) == moves_view(v).push((m.0, m.1, m.2@)),
{
    assert(moves_view(v.push(m)) =~= moves_view(v).push((m.0, m.1, m.2@)));
}

/// Whether row `i`, column `j` is on the board and empty.
fn check_free(i: isize, j: isize, cache: &[[isize; 8]; 8]) -> (r: bool)
    ensures
        r == free(grid(*cache), j as int, i as int),
{
    if i >= 0 && i < 8 && j >= 0 && j < 8 {
        assert(grid(*cache)[i as int] == cache[i as int]@);
        cache[i as usize][j as usize] == 0
    } else {
        false
    }
}

/// Whether row `i`, column `j` is on the board.
fn check_in(i: isize, j: isize) -> (r: bool)
    ensures
        r == on_board(j as int, i as int),
{
    i >= 0 && i < 8 && j >= 0 && j < 8
}

/// Appends the free cells along the diagonal (`dx`, `dy`) from (`x`, `y`).
fn push_ray(res: &mut Vec<(usize, usize)>, x: isize, y: isize, dx: isize, dy: isize, cache: &[[isize; 8]; 8])
    requires
        on_board(x as int, y as int),
        dx == 1 || dx == -1,
        dy == 1 || dy == -1,
    ensures
        final(res)@ == old(res)@ + ray(grid(*cache), x as int, y as int, dx as int, dy as int, 1),
{
    let ghost g = grid(*cache);
    let ghost start = res@;
    let mut cx = x + dx;
    let mut cy = y + dy;
    let ghost mut k: int = 1;
    while check_free(cy, cx, cache)
        invariant
            on_board(x as int, y as int),
            dx == 1 || dx == -1,
            dy == 1 || dy == -1,
            g == grid(*cache),
            1 <= k <= 8,
            cx == shift(x as int, dx as int, k),
            cy == shift(y as int, dy as int, k),
            res@ + ray(g, x as int, y as int, dx as int, dy as int, k) == start + ray(
                g,
                x as int,
                y as int,
                dx as int,
                dy as int,
                1,
            ),
        decreases 8 - k,
    {
        assert(k < 8);
        assert(ray(g, x as int, y as int, dx as int, dy as int, k) == seq![(cx as usize, cy as usize)] + ray(
            g,
            x as int,
            y as int,
            dx as int,
            dy as int,
            k + 1,
        ));
        res.push((cx as usize, cy as usize));
        assert(res@ + ray(g, x as int, y as int, dx as int, dy as int, k + 1) =~= start + ray(
            g,
            x as int,
            y as int,
            dx as int,
            dy as int,
            1,
        ));
        cx = cx + dx;
        cy = cy + dy;
        proof {
            k = k + 1;
        }
    }
    assert(ray(g, x as int, y as int, dx as int, dy as int, k) == Seq::<(usize, usize)>::empty());
    assert(res@ =~= res@ + ray(g, x as int, y as int, dx as int, dy as int, k));
}

/// The non-capturing moves of the piece at column `x`, row `y`.
fn simple_moves(x: usize, y: usize, color: isize, king: bool, cache: &[[isize; 8]; 8]) -> (res: Vec<(usize, usize)>)
    requires
        x < 8,
        y < 8,
        color_ok(color as int),
    ensures
        res@ == simple_moves_spec(grid(*cache), x as int, y as int, color as int, king),
{
    let mut res: Vec<(usize, usize)> = Vec::new();
    let i = y as isize;
    let j = x as isize;
    if !king {
        let ni = if color == 1 {
            i - 1
        } else {
            i + 1
        };
        if check_free(ni, j - 1, cache) {
            res.push(((j - 1) as usize, ni as usize));
        }
        if check_free(ni, j + 1, cache) {
            res.push(((j + 1) as usize, ni as usize));
        }
        assert(res@ =~= simple_moves_spec(grid(*cache), x as int, y as int, color as int, king));
    } else {
        push_ray(&mut res, j, i, 1, 1, cache);
        push_ray(&mut res, j, i, 1, -1, cache);
        push_ray(&mut res, j, i, -1, 1, cache);
        push_ray(&mut res, j, i, -1, -1, cache);
        assert(res@ =~= simple_moves_spec(grid(*cache), x as int, y as int, color as int, king));
    }
    res
}

pub open spec fn prev_view(p: Option<(isize, isize)>) -> Option<(int, int)> {
    match p {
        Some((a, b)) => Some((a as int, b as int)),
        None => None,
    }
}

/// The sign of `v`: 1, 0 or -1.
fn signum(v: isize) -> (r: isize)
    ensures
        r == sign(v as int),
{
    if v > 0 {
        1
    } else if v < 0 {
        -1
    } else {
        0
    }
}

/// The diagonal direction number `d`.
fn direction(d: usize) -> (r: (isize, isize))
    requires
        d < 4,
    ensures
        r.0 == dir_x(d as int),
        r.1 == dir_y(d as int),
{
    if d == 0 {
        (1, -1)
    } else if d == 1 {
        (-1, -1)
    } else if d == 2 {
        (-1, 1)
    } else {
        (1, 1)
    }
}

/// `a` moved `k` cells in direction `d`.
fn shift_by(a: isize, d: isize, k: isize) -> (r: isize)
    requires
        0 <= a < 8,
        0 <= k <= 8,
    ensures
        r == shift(a as int, d as int, k as int),
{
    if d > 0 {
        a + k
    } else {
        a - k
    }
}

/// A copy of a list of captured cells.
pub fn copy_path(v: &Vec<(usize, usize)>) -> (r: Vec<(usize, usize)>)
    ensures
        r@ == v@,
{
    let mut r: Vec<(usize, usize)> = Vec::new();
    for i in 0..v.len()
        invariant
            r@ == v@.subrange(0, i as int),
    {
        r.push(v[i]);
        assert(r@ =~= v@.subrange(0, i + 1));
    }
    assert(r@ =~= v@);
    r
}

proof fn lemma_grid_set(c: [[isize; 8]; 8], c2: [[isize; 8]; 8], x: int, y: int, v: isize)
    requires
        on_board(x, y),
        c2[y]@ == c[y]@.update(x, v),
        forall|r: int| 0 <= r < 8 && r != y ==> #[trigger] c2[r] == c[r],
    ensures
        grid(c2) == put(grid(c), x, y, v),
{
    assert(grid(c2) =~~= put(grid(c), x, y, v));
}

/// Appends the capture sequences of a man that begin with a jump in direction `d`.
fn man_dir(
    res: &mut Vec<(usize, usize, Box<Vec<(usize, usize)>>)>,
    x: isize,
    y: isize,
    color: isize,
    cache: &[[isize; 8]; 8],
    acc: &Vec<(usize, usize)>,
    d: usize,
)
    requires
        on_board(x as int, y as int),
        color_ok(color as int),
        d < 4,
    ensures
        moves_view(final(res)@) == moves_view(old(res)@) + man_jump(grid(*cache), x as int, y as int, color as int, acc@, d as int),
    decreases grid_enemies(grid(*cache), color as int), 1int,
{
    let ghost g = grid(*cache);
    let (px, py) = direction(d);
    let mx = x + px;
    let my = y + py;
    let tx = mx + px;
    let ty = my + py;
    if check_in(ty, tx) {
        assert(g[my as int] == cache[my as int]@);
        assert(g[ty as int] == cache[ty as int]@);
        let c = cache[my as usize][mx as usize];
        let dst = cache[ty as usize][tx as usize];
        if c != 0 && signum(c) != color && dst == 0 {
            let mut killed = copy_path(acc);
            killed.push((mx as usize, my as usize));
            let mut cache2: [[isize; 8]; 8] = *clone_cache(cache);
            let ghost c0 = cache2;
            cache2[y as usize][x as usize] = 0;
            proof { lemma_grid_set(c0, cache2, x as int, y as int, 0); }
            let ghost c1 = cache2;
            cache2[my as usize][mx as usize] = 0;
            proof { lemma_grid_set(c1, cache2, mx as int, my as int, 0); }
            let ghost c2 = cache2;
            cache2[ty as usize][tx as usize] = color;
            proof {
                lemma_grid_set(c2, cache2, tx as int, ty as int, color);
                lemma_jump_enemies(g, x as int, y as int, color as int, mx as int, my as int, tx as int, ty as int);
                assert(grid_ok(g));
            }
            let mut sub = kill_moves(tx, ty, color, false, &cache2, &killed, None);
            if sub.len() == 0 {
                let ghost before = res@;
                res.push((tx as usize, ty as usize, Box::new(killed)));
                proof { lemma_moves_view_push(before, res@.last()); }
                assert(moves_view(res@) =~= moves_view(old(res)@) + man_jump(g, x as int, y as int, color as int, acc@, d as int));
            } else {
                let ghost before = res@;
                let ghost subv = sub@;
                res.append(&mut sub);
                assert(moves_view(res@) =~= moves_view(before) + moves_view(subv));
            }
            return;
        }
    }
    assert(man_jump(g, x as int, y as int, color as int, acc@, d as int) == Seq::<MoveV>::empty());
    assert(moves_view(res@) =~= moves_view(old(res)@) + man_jump(g, x as int, y as int, color as int, acc@, d as int));
}

/// The capture sequences of the piece at (`x`, `y`) of side `color`, the
/// pieces in `acc` having been taken already.
fn kill_moves(
    x: isize,
    y: isize,
    color: isize,
    king: bool,
    cache: &[[isize; 8]; 8],
    acc: &Vec<(usize, usize)>,
    prev: Option<(isize, isize)>,
) -> (res: Vec<(usize, usize, Box<Vec<(usize, usize)>>)>)
    requires
        on_board(x as int, y as int),
        color_ok(color as int),
    ensures
        moves_view(res@) == kill_moves_spec(grid(*cache), x as int, y as int, color as int, king, acc@, prev_view(prev)),
    decreases grid_enemies(grid(*cache), color as int), 2int,
{
    let ghost g = grid(*cache);
    let mut res: Vec<(usize, usize, Box<Vec<(usize, usize)>>)> = Vec::new();
    let mut d: usize = 0;
    while d < 4
        invariant
            on_board(x as int, y as int),
            color_ok(color as int),
            g == grid(*cache),
            d <= 4,
            moves_view(res@) == kill_dirs(g, x as int, y as int, color as int, king, acc@, prev_view(prev), d as int),
        decreases 4 - d,
    {
        let ghost before = res@;
        if king {
            let (px, py) = direction(d);
            let skip = match prev {
                Some((a, b)) => a == -px && b == -py,
                None => false,
            };
            if !skip {
                king_dir(&mut res, x, y, color, cache, acc, d);
            } else {
                assert(kill_dir(g, x as int, y as int, color as int, king, acc@, prev_view(prev), d as int) =~= Seq::<MoveV>::empty());
            }
        } else {
            man_dir(&mut res, x, y, color, cache, acc, d);
        }
        assert(moves_view(res@) == moves_view(before) + kill_dir(g, x as int, y as int, color as int, king, acc@, prev_view(prev), d as int));
        assert(moves_view(res@) =~= kill_dirs(g, x as int, y as int, color as int, king, acc@, prev_view(prev), d + 1));
        d = d + 1;
    }
    res
}

/// Appends the capture sequences of a king that begin in direction `d`.
fn king_dir(
    res: &mut Vec<(usize, usize, Box<Vec<(usize, usize)>>)>,
    x: isize,
    y: isize,
    color: isize,
    cache: &[[isize; 8]; 8],
    acc: &Vec<(usize, usize)>,
    d: usize,
)
    requires
        on_board(x as int, y as int),
        color_ok(color as int),
        d < 4,
    ensures
        moves_view(final(res)@) == moves_view(old(res)@) + king_scan(grid(*cache), x as int, y as int, color as int, acc@, d as int, 1),
    decreases grid_enemies(grid(*cache), color as int), 1int,
{
    let ghost g = grid(*cache);
    let ghost spec_res = king_scan(g, x as int, y as int, color as int, acc@, d as int, 1);
    let (px, py) = direction(d);
    let mut mul: isize = 1;
    loop
        invariant
            on_board(x as int, y as int),
            color_ok(color as int),
            d < 4,
            px == dir_x(d as int),
            py == dir_y(d as int),
            g == grid(*cache),
            res@ == old(res)@,
            spec_res == king_scan(g, x as int, y as int, color as int, acc@, d as int, 1),
            1 <= mul <= 7,
            spec_res == king_scan(g, x as int, y as int, color as int, acc@, d as int, mul as int),
        decreases 8 - mul,
    {
        let nx = shift_by(x, px, mul + 1);
        let ny = shift_by(y, py, mul + 1);
        if !check_in(ny, nx) {
            assert(spec_res == Seq::<MoveV>::empty());
            assert(moves_view(res@) =~= moves_view(old(res)@) + spec_res);
            return;
        }
        let ex = shift_by(x, px, mul);
        let ey = shift_by(y, py, mul);
        assert(g[ey as int] == cache[ey as int]@);
        let c = cache[ey as usize][ex as usize];
        if c != 0 {
            if signum(c) != color {
                // the landing cells behind the enemy piece
                let ghost land = landing(g, x as int, y as int, px as int, py as int, mul + 1);
                let mut cells: Vec<(usize, usize)> = Vec::new();
                let mut k: isize = mul + 1;
                while k < 8 && check_free(shift_by(y, py, k), shift_by(x, px, k), cache)
                    invariant
                        on_board(x as int, y as int),
                        px == dir_x(d as int),
                        py == dir_y(d as int),
                        g == grid(*cache),
                        2 <= k <= 8,
                        cells@ + landing(g, x as int, y as int, px as int, py as int, k as int) == land,
                    decreases 8 - k,
                {
                    let cx = shift_by(x, px, k);
                    let cy = shift_by(y, py, k);
                    cells.push((cx as usize, cy as usize));
                    assert(cells@ + landing(g, x as int, y as int, px as int, py as int, k + 1) =~= land);
                    k = k + 1;
                }
                assert(landing(g, x as int, y as int, px as int, py as int, k as int) == Seq::<(usize, usize)>::empty());
                assert(cells@ =~= land);
                proof { lemma_landing_on_board(g, x as int, y as int, px as int, py as int, mul + 1); }
                if cells.len() == 0 {
                    assert(moves_view(res@) =~= moves_view(old(res)@) + spec_res);
                    return;
                }
                let mut killed = copy_path(acc);
                killed.push((ex as usize, ey as usize));
                let mut cache2: [[isize; 8]; 8] = *clone_cache(cache);
                let ghost c0 = cache2;
                cache2[y as usize][x as usize] = 0;
                proof { lemma_grid_set(c0, cache2, x as int, y as int, 0); }
                let ghost c1 = cache2;
                cache2[ey as usize][ex as usize] = 0;
                proof {
                    lemma_grid_set(c1, cache2, ex as int, ey as int, 0);
                    lemma_king_jump_enemies(g, x as int, y as int, color as int, ex as int, ey as int);
                }
                let ghost g2 = grid(cache2);
                let mut cont: Vec<(usize, usize, Box<Vec<(usize, usize)>>)> = Vec::new();
                let n_cells = cells.len();
                for n in 0..n_cells
                    invariant
                        n_cells == cells@.len(),
                        color_ok(color as int),
                        g == grid(*cache),
                        g2 == grid(cache2),
                        px == dir_x(d as int),
                        py == dir_y(d as int),
                        forall|i: int| 0 <= i < cells@.len() ==> on_board(#[trigger] cells@[i].0 as int, cells@[i].1 as int),
                        grid_enemies(g2, color as int) < grid_enemies(g, color as int),
                        moves_view(cont@) == king_continue(g2, color as int, killed@, d as int, cells@, n as int),
                {
                    let (cx, cy) = cells[n];
                    let mut sub = kill_moves(cx as isize, cy as isize, color, true, &cache2, &killed, Some((px, py)));
                    let ghost before = cont@;
                    let ghost subv = sub@;
                    cont.append(&mut sub);
                    assert(moves_view(cont@) =~= moves_view(before) + moves_view(subv));
                }
                if cont.len() == 0 {
                    let ghost mapped = cells@.map_values(|c: (usize, usize)| (c.0, c.1, killed@));
                    for n in 0..n_cells
                        invariant
                            n_cells == cells@.len(),
                            mapped == cells@.map_values(|c: (usize, usize)| (c.0, c.1, killed@)),
                            moves_view(res@) == moves_view(old(res)@) + mapped.subrange(0, n as int),
                    {
                        let (cx, cy) = cells[n];
                        let ghost before = res@;
                        res.push((cx, cy, Box::new(copy_path(&killed))));
                        proof { lemma_moves_view_push(before, res@.last()); }
                        assert(moves_view(res@) =~= moves_view(old(res)@) + mapped.subrange(0, n + 1));
                    }
                    assert(mapped.subrange(0, n_cells as int) =~= mapped);
                } else {
                    let ghost before = res@;
                    let ghost contv = cont@;
                    res.append(&mut cont);
                    assert(moves_view(res@) =~= moves_view(before) + moves_view(contv));
                }
                return;
            }
            assert(spec_res == Seq::<MoveV>::empty());
            assert(moves_view(res@) =~= moves_view(old(res)@) + spec_res);
            return;
        }
        mul = mul + 1;
    }
}

/// All moves of the piece at column `x`, row `y` of side `color` (1 white,
/// -1 black) on the cell cache `fld`: its capture sequences when it has any,
/// else its plain moves.
pub fn all_moves(x: usize, y: usize, color: isize, king: bool, fld: &[[isize; 8]; 8]) -> (res: Vec<(usize, usize, Box<Vec<(usize, usize)>>)>)
    requires
        x < 8,
        y < 8,
        color_ok(color as int),
    ensures
        moves_view(res@) == all_moves_spec(grid(*fld), x as int, y as int, color as int, king),
{
    let empty: Vec<(usize, usize)> = Vec::new();
    let mut res = kill_moves(x as isize, y as isize, color, king, fld, &empty, None);
    if res.len() > 0 {
        return res;
    }
    let simple = simple_moves(x, y, color, king, fld);
    let ghost mapped = simple@.map_values(|p: (usize, usize)| (p.0, p.1, Seq::<(usize, usize)>::empty()));
    for n in 0..simple.len()
        invariant
            mapped == simple@.map_values(|p: (usize, usize)| (p.0, p.1, Seq::<(usize, usize)>::empty())),
            moves_view(res@) == mapped.subrange(0, n as int),
    {
        let (nx, ny) = simple[n];
        let ghost before = res@;
        res.push((nx, ny, Box::new(Vec::new())));
        proof { lemma_moves_view_push(before, res@.last()); }
        assert(moves_view(res@) =~= mapped.subrange(0, n + 1));
    }
    assert(mapped.subrange(0, simple@.len() as int) =~= mapped);
    res
}

/// The moves of the piece `ch`, taking its side from the piece found on its cell.
pub fn moves(ch: &Checker, fld: &Field) -> (res: Vec<(usize, usize, Box<Vec<(usize, usize)>>)>)
    requires
        fld@.in_bounds(),
        fld@.locate(ch.x as int, ch.y as int) is Some,
    ensures
        moves_view(res@) == all_moves_spec(
            fld@.board(),
            ch.x as int,
            ch.y as int,
            fld@.side_at(ch.x as int, ch.y as int),
            ch.king,
        ),
{
    let cache = fld.cache_field();
    let (found, color) = fld.get_ch(ch.x, ch.y).unwrap();
    proof { fld@.lemma_locate(ch.x as int, ch.y as int); }
    all_moves(ch.x, ch.y, color, ch.king, &cache)
}

// ---------------------------------------------------------------------------
// Facts about generated moves.

/// Every move of the list ends on the board and captures more than `n` pieces.
pub open spec fn ends_on_board_capturing(ms: Seq<MoveV>, n: int) -> bool {
    forall|k: int| 0 <= k < ms.len() ==> on_board((#[trigger] ms[k]).0 as int, ms[k].1 as int) && ms[k].2.len() > n
}

proof fn lemma_concat_moves(a: Seq<MoveV>, b: Seq<MoveV>, n: int)
    requires
        ends_on_board_capturing(a, n),
        ends_on_board_capturing(b, n),
    ensures
        ends_on_board_capturing(a + b, n),
{
    assert forall|k: int| 0 <= k < (a + b).len() implies on_board((#[trigger] (a + b)[k]).0 as int, (a + b)[k].1 as int) && (a
        + b)[k].2.len() > n by {
        if k < a.len() {
            assert((a + b)[k] == a[k]);
        } else {
            assert((a + b)[k] == b[k - a.len()]);
        }
    }
}

proof fn lemma_kill_moves(g: Grid, x: int, y: int, color: int, king: bool, acc: Seq<(usize, usize)>, prev: Option<(int, int)>)
    ensures
        ends_on_board_capturing(kill_moves_spec(g, x, y, color, king, acc, prev), acc.len() as int),
    decreases grid_enemies(g, color), 5int, 0int,
{
    lemma_kill_dirs(g, x, y, color, king, acc, prev, 4);
}

proof fn lemma_kill_dirs(g: Grid, x: int, y: int, color: int, king: bool, acc: Seq<(usize, usize)>, prev: Option<(int, int)>, n: int)
    ensures
        ends_on_board_capturing(kill_dirs(g, x, y, color, king, acc, prev, n), acc.len() as int),
    decreases grid_enemies(g, color), 4int, n,
{
    if n > 0 {
        lemma_kill_dirs(g, x, y, color, king, acc, prev, n - 1);
        lemma_kill_dir(g, x, y, color, king, acc, prev, n - 1);
        lemma_concat_moves(
            kill_dirs(g, x, y, color, king, acc, prev, n - 1),
            kill_dir(g, x, y, color, king, acc, prev, n - 1),
            acc.len() as int,
        );
    }
}

proof fn lemma_kill_dir(g: Grid, x: int, y: int, color: int, king: bool, acc: Seq<(usize, usize)>, prev: Option<(int, int)>, d: int)
    ensures
        ends_on_board_capturing(kill_dir(g, x, y, color, king, acc, prev, d), acc.len() as int),
    decreases grid_enemies(g, color), 3int, 0int,
{
    if king {
        if prev != Some((-dir_x(d), -dir_y(d))) {
            lemma_king_scan(g, x, y, color, acc, d, 1);
        }
    } else {
        lemma_man_jump(g, x, y, color, acc, d);
    }
}

proof fn lemma_man_jump(g: Grid, x: int, y: int, color: int, acc: Seq<(usize, usize)>, d: int)
    ensures
        ends_on_board_capturing(man_jump(g, x, y, color, acc, d), acc.len() as int),
    decreases grid_enemies(g, color), 2int, 0int,
{
    let mx = x + dir_x(d);
    let my = y + dir_y(d);
    let tx = x + 2 * dir_x(d);
    let ty = y + 2 * dir_y(d);
    if search_ok(g, x, y, color) && on_board(tx, ty) && is_enemy(at(g, mx, my), color) && at(g, tx, ty) == 0 {
        let killed = acc.push((mx as usize, my as usize));
        let g2 = put(put(put(g, x, y, 0), mx, my, 0), tx, ty, color as isize);
        lemma_jump_enemies(g, x, y, color, mx, my, tx, ty);
        lemma_kill_moves(g2, tx, ty, color, false, killed, None);
    }
}

proof fn lemma_king_scan(g: Grid, x: int, y: int, color: int, acc: Seq<(usize, usize)>, d: int, mul: int)
    ensures
        ends_on_board_capturing(king_scan(g, x, y, color, acc, d, mul), acc.len() as int),
    decreases grid_enemies(g, color), 2int, 8 - mul,
{
    let px = dir_x(d);
    let py = dir_y(d);
    if !(!search_ok(g, x, y, color) || mul < 1 || mul >= 8 || !on_board(shift(x, px, mul + 1), shift(y, py, mul + 1))) {
        let ex = shift(x, px, mul);
        let ey = shift(y, py, mul);
        let c = at(g, ex, ey);
        if c == 0 {
            lemma_king_scan(g, x, y, color, acc, d, mul + 1);
        } else if is_enemy(c, color) {
            let cells = landing(g, x, y, px, py, mul + 1);
            if cells.len() != 0 {
                let killed = acc.push((ex as usize, ey as usize));
                let g2 = put(put(g, x, y, 0), ex, ey, 0);
                lemma_king_jump_enemies(g, x, y, color, ex, ey);
                lemma_king_continue(g2, color, killed, d, cells, cells.len() as int);
                lemma_landing_on_board(g, x, y, px, py, mul + 1);
                let m = cells.map_values(|c: (usize, usize)| (c.0, c.1, killed));
                assert forall|k: int| 0 <= k < m.len() implies on_board((#[trigger] m[k]).0 as int, m[k].1 as int)
                    && m[k].2.len() > acc.len() by {
                    assert(m[k] == (cells[k].0, cells[k].1, killed));
                }
            }
        }
    }
}

proof fn lemma_king_continue(g: Grid, color: int, killed: Seq<(usize, usize)>, d: int, cells: Seq<(usize, usize)>, n: int)
    ensures
        ends_on_board_capturing(king_continue(g, color, killed, d, cells, n), killed.len() - 1),
    decreases grid_enemies(g, color), 6int, n,
{
    if !(n <= 0 || n > cells.len()) {
        lemma_king_continue(g, color, killed, d, cells, n - 1);
        lemma_kill_moves(g, cells[n - 1].0 as int, cells[n - 1].1 as int, color, true, killed, Some((dir_x(d), dir_y(d))));
        lemma_concat_moves(
            king_continue(g, color, killed, d, cells, n - 1),
            kill_moves_spec(g, cells[n - 1].0 as int, cells[n - 1].1 as int, color, true, killed, Some((dir_x(d), dir_y(d)))),
            killed.len() - 1,
        );
    }
}

proof fn lemma_ray_on_board(g: Grid, x: int, y: int, dx: int, dy: int, k: int)
    ensures
        forall|i: int| 0 <= i < ray(g, x, y, dx, dy, k).len() ==> on_board(
            (#[trigger] ray(g, x, y, dx, dy, k)[i]).0 as int,
            ray(g, x, y, dx, dy, k)[i].1 as int,
        ),
    decreases 8 - k,
{
    if !(k < 1 || k >= 8 || !free(g, shift(x, dx, k), shift(y, dy, k))) {
        lemma_ray_on_board(g, x, y, dx, dy, k + 1);
        let l = ray(g, x, y, dx, dy, k);
        let r = ray(g, x, y, dx, dy, k + 1);
        assert forall|i: int| 0 <= i < l.len() implies on_board((#[trigger] l[i]).0 as int, l[i].1 as int) by {
            if i > 0 {
                assert(l[i] == r[i - 1]);
            }
        }
    }
}

/// Every move of a piece ends on the board; the moves are all captures or all plain.
pub proof fn lemma_all_moves(g: Grid, x: int, y: int, color: int, king: bool)
    ensures
        forall|k: int| 0 <= k < all_moves_spec(g, x, y, color, king).len() ==> on_board(
            (#[trigger] all_moves_spec(g, x, y, color, king)[k]).0 as int,
            all_moves_spec(g, x, y, color, king)[k].1 as int,
        ),
        kill_moves_spec(g, x, y, color, king, seq![], None).len() > 0 ==> ends_on_board_capturing(
            all_moves_spec(g, x, y, color, king),
            0,
        ),
        kill_moves_spec(g, x, y, color, king, seq![], None).len() == 0 ==> forall|k: int|
            0 <= k < all_moves_spec(g, x, y, color, king).len() ==> (#[trigger] all_moves_spec(g, x, y, color, king)[k]).2.len() == 0,
{
    lemma_kill_moves(g, x, y, color, king, seq![], None);
    let k = kill_moves_spec(g, x, y, color, king, seq![], None);
    if k.len() == 0 {
        let s = simple_moves_spec(g, x, y, color, king);
        let m = all_moves_spec(g, x, y, color, king);
        assert(m == s.map_values(|p: (usize, usize)| (p.0, p.1, Seq::<(usize, usize)>::empty())));
        if king {
            lemma_ray_on_board(g, x, y, 1, 1, 1);
            lemma_ray_on_board(g, x, y, 1, -1, 1);
            lemma_ray_on_board(g, x, y, -1, 1, 1);
            lemma_ray_on_board(g, x, y, -1, -1, 1);
            let r1 = ray(g, x, y, 1, 1, 1);
            let r2 = ray(g, x, y, 1, -1, 1);
            let r3 = ray(g, x, y, -1, 1, 1);
            let r4 = ray(g, x, y, -1, -1, 1);
            assert forall|i: int| 0 <= i < s.len() implies on_board((#[trigger] s[i]).0 as int, s[i].1 as int) by {
                if i < r1.len() {
                    assert(s[i] == r1[i]);
                } else if i < r1.len() + r2.len() {
                    assert(s[i] == r2[i - r1.len()]);
                } else if i < r1.len() + r2.len() + r3.len() {
                    assert(s[i] == r3[i - r1.len() - r2.len()]);
                } else {
                    assert(s[i] == r4[i - r1.len() - r2.len() - r3.len()]);
                }
            }
        }
        assert forall|i: int| 0 <= i < m.len() implies on_board((#[trigger] m[i]).0 as int, m[i].1 as int) && m[i].2.len() == 0 by {
            assert(m[i] == (s[i].0, s[i].1, Seq::<(usize, usize)>::empty()));
        }
    }
}

// ---------------------------------------------------------------------------
// The captured cells of a capture sequence.

/// From index `n` on, the cells of `path` lie on the board, hold enemy pieces in
/// `g`, and are pairwise distinct.
pub open spec fn fresh_kills(g: Grid, color: int, n: int, path: Seq<(usize, usize)>) -> bool {
    &&& forall|j: int|
        n <= j < path.len() ==> on_board((#[trigger] path[j]).0 as int, path[j].1 as int) && is_enemy(
            at(g, path[j].0 as int, path[j].1 as int),
            color,
        )
    &&& forall|j1: int, j2: int| n <= j1 < j2 < path.len() ==> #[trigger] path[j1] != #[trigger] path[j2]
}

/// Every move of `ms` extends `acc` with fresh captures in `g`.
pub open spec fn kills_ok(ms: Seq<MoveV>, g: Grid, color: int, acc: Seq<(usize, usize)>) -> bool {
    forall|k: int|
        0 <= k < ms.len() ==> (#[trigger] ms[k]).2.len() >= acc.len() && ms[k].2.subrange(0, acc.len() as int) == acc
            && fresh_kills(g, color, acc.len() as int, ms[k].2)
}

proof fn lemma_kills_ok_concat(a: Seq<MoveV>, b: Seq<MoveV>, g: Grid, color: int, acc: Seq<(usize, usize)>)
    requires
        kills_ok(a, g, color, acc),
        kills_ok(b, g, color, acc),
    ensures
        kills_ok(a + b, g, color, acc),
{
    assert forall|k: int| 0 <= k < (a + b).len() implies (#[trigger] (a + b)[k]).2.len() >= acc.len() && (a + b)[k].2.subrange(
        0,
        acc.len() as int,
    ) == acc && fresh_kills(g, color, acc.len() as int, (a + b)[k].2) by {
        if k < a.len() {
            assert((a + b)[k] == a[k]);
        } else {
            assert((a + b)[k] == b[k - a.len()]);
        }
    }
}

/// Results that are fresh in `g2` are fresh in `g0` when `g2` differs from
/// `g0` only in cells that hold no enemy in `g2` and in the extra cell `e`,
/// which is an enemy in `g0` and empty in `g2`.
proof fn lemma_kills_transfer(ms: Seq<MoveV>, g2: Grid, g0: Grid, color: int, acc: Seq<(usize, usize)>, e: (usize, usize))
    requires
        kills_ok(ms, g2, color, acc.push(e)),
        on_board(e.0 as int, e.1 as int),
        is_enemy(at(g0, e.0 as int, e.1 as int), color),
        at(g2, e.0 as int, e.1 as int) == 0,
        forall|a: int, b: int| on_board(a, b) && #[trigger] is_enemy(at(g2, a, b), color) ==> at(g0, a, b) == at(g2, a, b),
    ensures
        kills_ok(ms, g0, color, acc),
{
    let killed = acc.push(e);
    assert forall|k: int| 0 <= k < ms.len() implies (#[trigger] ms[k]).2.len() >= acc.len() && ms[k].2.subrange(0, acc.len() as int)
        == acc && fresh_kills(g0, color, acc.len() as int, ms[k].2) by {
        let path = ms[k].2;
        assert(path.subrange(0, killed.len() as int) == killed);
        assert(path[acc.len() as int] == killed[acc.len() as int]);
        assert(path.subrange(0, acc.len() as int) =~= acc) by {
            assert forall|j: int| 0 <= j < acc.len() implies path.subrange(0, acc.len() as int)[j] == acc[j] by {
                assert(path[j] == path.subrange(0, killed.len() as int)[j]);
            }
        }
        assert forall|j: int| acc.len() <= j < path.len() implies on_board((#[trigger] path[j]).0 as int, path[j].1 as int)
            && is_enemy(at(g0, path[j].0 as int, path[j].1 as int), color) by {
            if j > acc.len() {
                assert(fresh_kills(g2, color, killed.len() as int, path));
            }
        }
        assert forall|j1: int, j2: int| acc.len() <= j1 < j2 < path.len() implies #[trigger] path[j1] != #[trigger] path[j2] by {
            assert(fresh_kills(g2, color, killed.len() as int, path));
            if j1 == acc.len() {
                assert(is_enemy(at(g2, path[j2].0 as int, path[j2].1 as int), color));
            }
        }
    }
}

proof fn lemma_put_same(g: Grid, x: int, y: int)
    requires
        grid_ok(g),
        on_board(x, y),
        at(g, x, y) == 0,
    ensures
        put(g, x, y, 0) == g,
{
    assert(put(g, x, y, 0) =~~= g);
}

/// Every capture sequence found from (`x`, `y`) extends `acc` with cells that lie
/// on the board, hold enemies of `color` once the moving piece has left its
/// cell, and are pairwise distinct.
pub proof fn lemma_kill_safe(g: Grid, x: int, y: int, color: int, king: bool, acc: Seq<(usize, usize)>, prev: Option<(int, int)>)
    requires
        grid_ok(g),
        on_board(x, y),
    ensures
        kills_ok(kill_moves_spec(g, x, y, color, king, acc, prev), put(g, x, y, 0), color, acc),
    decreases grid_enemies(g, color), 5int, 0int,
{
    lemma_kill_safe_dirs(g, x, y, color, king, acc, prev, 4);
}

proof fn lemma_kill_safe_dirs(g: Grid, x: int, y: int, color: int, king: bool, acc: Seq<(usize, usize)>, prev: Option<(int, int)>, n: int)
    requires
        grid_ok(g),
        on_board(x, y),
    ensures
        kills_ok(kill_dirs(g, x, y, color, king, acc, prev, n), put(g, x, y, 0), color, acc),
    decreases grid_enemies(g, color), 4int, n,
{
    if n > 0 {
        lemma_kill_safe_dirs(g, x, y, color, king, acc, prev, n - 1);
        lemma_kill_safe_dir(g, x, y, color, king, acc, prev, n - 1);
        lemma_kills_ok_concat(
            kill_dirs(g, x, y, color, king, acc, prev, n - 1),
            kill_dir(g, x, y, color, king, acc, prev, n - 1),
            put(g, x, y, 0),
            color,
            acc,
        );
    }
}

proof fn lemma_kill_safe_dir(g: Grid, x: int, y: int, color: int, king: bool, acc: Seq<(usize, usize)>, prev: Option<(int, int)>, d: int)
    requires
        grid_ok(g),
        on_board(x, y),
    ensures
        kills_ok(kill_dir(g, x, y, color, king, acc, prev, d), put(g, x, y, 0), color, acc),
    decreases grid_enemies(g, color), 3int, 0int,
{
    if king {
        if prev != Some((-dir_x(d), -dir_y(d))) {
            lemma_kill_safe_scan(g, x, y, color, acc, d, 1);
        }
    } else {
        lemma_kill_safe_man(g, x, y, color, acc, d);
    }
}

proof fn lemma_kill_safe_man(g: Grid, x: int, y: int, color: int, acc: Seq<(usize, usize)>, d: int)
    requires
        grid_ok(g),
        on_board(x, y),
    ensures
        kills_ok(man_jump(g, x, y, color, acc, d), put(g, x, y, 0), color, acc),
    decreases grid_enemies(g, color), 2int, 0int,
{
    let mx = x + dir_x(d);
    let my = y + dir_y(d);
    let tx = x + 2 * dir_x(d);
    let ty = y + 2 * dir_y(d);
    if search_ok(g, x, y, color) && on_board(tx, ty) && is_enemy(at(g, mx, my), color) && at(g, tx, ty) == 0 {
        let e = (mx as usize, my as usize);
        let killed = acc.push(e);
        let g0 = put(g, x, y, 0);
        let g1 = put(g0, mx, my, 0);
        let g2 = put(g1, tx, ty, color as isize);
        lemma_jump_enemies(g, x, y, color, mx, my, tx, ty);
        lemma_put_enemies(g, color, x, y, 0);
        lemma_put_enemies(g0, color, mx, my, 0);
        lemma_put_enemies(g1, color, tx, ty, color as isize);
        let g3 = put(g2, tx, ty, 0);
        lemma_put_enemies(g2, color, tx, ty, 0);
        lemma_kill_safe(g2, tx, ty, color, false, killed, None);
        let rest = kill_moves_spec(g2, tx, ty, color, false, killed, None);
        if rest.len() == 0 {
            let ms = man_jump(g, x, y, color, acc, d);
            assert(ms == seq![(tx as usize, ty as usize, killed)]);
            assert forall|k: int| 0 <= k < ms.len() implies (#[trigger] ms[k]).2.len() >= acc.len() && ms[k].2.subrange(
                0,
                acc.len() as int,
            ) == acc && fresh_kills(g0, color, acc.len() as int, ms[k].2) by {
                assert(ms[k].2 == killed);
                assert(killed.subrange(0, acc.len() as int) =~= acc);
            }
        } else {
            assert forall|a: int, b: int| on_board(a, b) && #[trigger] is_enemy(at(g3, a, b), color) implies at(g0, a, b) == at(
                g3,
                a,
                b,
            ) by {
                lemma_color_not_enemy(color);
            }
            lemma_kills_transfer(rest, g3, g0, color, acc, e);
        }
    }
}

proof fn lemma_kill_safe_scan(g: Grid, x: int, y: int, color: int, acc: Seq<(usize, usize)>, d: int, mul: int)
    requires
        grid_ok(g),
        on_board(x, y),
    ensures
        kills_ok(king_scan(g, x, y, color, acc, d, mul), put(g, x, y, 0), color, acc),
    decreases grid_enemies(g, color), 2int, 8 - mul,
{
    let px = dir_x(d);
    let py = dir_y(d);
    if !(!search_ok(g, x, y, color) || mul < 1 || mul >= 8 || !on_board(shift(x, px, mul + 1), shift(y, py, mul + 1))) {
        let ex = shift(x, px, mul);
        let ey = shift(y, py, mul);
        let c = at(g, ex, ey);
        if c == 0 {
            lemma_kill_safe_scan(g, x, y, color, acc, d, mul + 1);
        } else if is_enemy(c, color) {
            let cells = landing(g, x, y, px, py, mul + 1);
            if cells.len() != 0 {
                let e = (ex as usize, ey as usize);
                let killed = acc.push(e);
                let g0 = put(g, x, y, 0);
                let g2 = put(g0, ex, ey, 0);
                lemma_king_jump_enemies(g, x, y, color, ex, ey);
                lemma_put_enemies(g, color, x, y, 0);
                lemma_put_enemies(g0, color, ex, ey, 0);
                lemma_landing_on_board(g, x, y, px, py, mul + 1);
                assert forall|i: int| 0 <= i < cells.len() implies at(g2, (#[trigger] cells[i]).0 as int, cells[i].1 as int) == 0 by {
                    let cc = cells[i];
                    assert(free(g, cc.0 as int, cc.1 as int));
                }
                lemma_kill_safe_continue(g2, color, killed, d, cells, cells.len() as int);
                let cont = king_continue(g2, color, killed, d, cells, cells.len() as int);
                if cont.len() == 0 {
                    let ms = cells.map_values(|cc: (usize, usize)| (cc.0, cc.1, killed));
                    assert forall|k: int| 0 <= k < ms.len() implies (#[trigger] ms[k]).2.len() >= acc.len() && ms[k].2.subrange(
                        0,
                        acc.len() as int,
                    ) == acc && fresh_kills(g0, color, acc.len() as int, ms[k].2) by {
                        assert(ms[k].2 == killed);
                        assert(killed.subrange(0, acc.len() as int) =~= acc);
                    }
                } else {
                    lemma_kills_transfer(cont, g2, g0, color, acc, e);
                }
            }
        }
    }
}

proof fn lemma_kill_safe_continue(g: Grid, color: int, killed: Seq<(usize, usize)>, d: int, cells: Seq<(usize, usize)>, n: int)
    requires
        grid_ok(g),
        forall|i: int| 0 <= i < cells.len() ==> on_board((#[trigger] cells[i]).0 as int, cells[i].1 as int) && at(
            g,
            cells[i].0 as int,
            cells[i].1 as int,
        ) == 0,
    ensures
        kills_ok(king_continue(g, color, killed, d, cells, n), g, color, killed),
    decreases grid_enemies(g, color), 6int, n,
{
    if !(n <= 0 || n > cells.len()) {
        let cc = cells[n - 1];
        lemma_kill_safe_continue(g, color, killed, d, cells, n - 1);
        lemma_kill_safe(g, cc.0 as int, cc.1 as int, color, true, killed, Some((dir_x(d), dir_y(d))));
        lemma_put_same(g, cc.0 as int, cc.1 as int);
        lemma_kills_ok_concat(
            king_continue(g, color, killed, d, cells, n - 1),
            kill_moves_spec(g, cc.0 as int, cc.1 as int, color, true, killed, Some((dir_x(d), dir_y(d)))),
            g,
            color,
            killed,
        );
    }
}

/// The first capture of a king's scan in direction `d` from distance `mul` on
/// is the first piece on that diagonal: the cells before it are empty.
proof fn lemma_king_scan_first(g: Grid, x: int, y: int, color: int, acc: Seq<(usize, usize)>, d: int, mul: int)
    requires
        grid_ok(g),
        on_board(x, y),
        1 <= mul,
        forall|t: int| 1 <= t < mul ==> #[trigger] at(g, shift(x, dir_x(d), t), shift(y, dir_y(d), t)) == 0,
    ensures
        forall|k: int| 0 <= k < king_scan(g, x, y, color, acc, d, mul).len() ==> {
            let r = #[trigger] king_scan(g, x, y, color, acc, d, mul)[k];
            &&& r.2.len() > acc.len()
            &&& exists|m: int|
                mul <= m && r.2[acc.len() as int] == (shift(x, dir_x(d), m) as usize, shift(y, dir_y(d), m) as usize) && forall|t: int|
                    1 <= t < m ==> #[trigger] at(g, shift(x, dir_x(d), t), shift(y, dir_y(d), t)) == 0
        },
    decreases 8 - mul,
{
    let px = dir_x(d);
    let py = dir_y(d);
    let res = king_scan(g, x, y, color, acc, d, mul);
    if !(!search_ok(g, x, y, color) || mul < 1 || mul >= 8 || !on_board(shift(x, px, mul + 1), shift(y, py, mul + 1))) {
        let ex = shift(x, px, mul);
        let ey = shift(y, py, mul);
        let c = at(g, ex, ey);
        if c == 0 {
            lemma_king_scan_first(g, x, y, color, acc, d, mul + 1);
            assert(res == king_scan(g, x, y, color, acc, d, mul + 1));
            assert forall|k: int| 0 <= k < res.len() implies {
                let r = #[trigger] res[k];
                &&& r.2.len() > acc.len()
                &&& exists|m: int|
                    mul <= m && r.2[acc.len() as int] == (shift(x, px, m) as usize, shift(y, py, m) as usize) && forall|t: int|
                        1 <= t < m ==> #[trigger] at(g, shift(x, px, t), shift(y, py, t)) == 0
            } by {
                let r = res[k];
                assert(r == king_scan(g, x, y, color, acc, d, mul + 1)[k]);
                let m = choose|m: int|
                    mul + 1 <= m && r.2[acc.len() as int] == (shift(x, px, m) as usize, shift(y, py, m) as usize) && forall|t: int|
                        1 <= t < m ==> #[trigger] at(g, shift(x, px, t), shift(y, py, t)) == 0;
                assert(mul <= m);
            }
        } else if is_enemy(c, color) {
            let cells = landing(g, x, y, px, py, mul + 1);
            if cells.len() != 0 {
                let e = (ex as usize, ey as usize);
                let killed = acc.push(e);
                let g0 = put(g, x, y, 0);
                let g2 = put(g0, ex, ey, 0);
                lemma_king_jump_enemies(g, x, y, color, ex, ey);
                lemma_landing_on_board(g, x, y, px, py, mul + 1);
                assert forall|i: int| 0 <= i < cells.len() implies at(g2, (#[trigger] cells[i]).0 as int, cells[i].1 as int) == 0 by {
                    let cc = cells[i];
                    assert(free(g, cc.0 as int, cc.1 as int));
                }
                lemma_kill_safe_continue(g2, color, killed, d, cells, cells.len() as int);
                let cont = king_continue(g2, color, killed, d, cells, cells.len() as int);
                assert(res == if cont.len() == 0 { cells.map_values(|cc: (usize, usize)| (cc.0, cc.1, killed)) } else { cont });
                assert forall|k: int| 0 <= k < res.len() implies {
                    let r = #[trigger] res[k];
                    &&& r.2.len() > acc.len()
                    &&& exists|m: int|
                        mul <= m && r.2[acc.len() as int] == (shift(x, px, m) as usize, shift(y, py, m) as usize) && forall|t: int|
                            1 <= t < m ==> #[trigger] at(g, shift(x, px, t), shift(y, py, t)) == 0
                } by {
                    let r = res[k];
                    if cont.len() == 0 {
                        assert(r.2 == killed);
                    } else {
                        assert(r == cont[k]);
                        assert(r.2.subrange(0, killed.len() as int) == killed);
                        assert(r.2[acc.len() as int] == r.2.subrange(0, killed.len() as int)[acc.len() as int]);
                    }
                    assert(r.2[acc.len() as int] == e);
                    assert(r.2[acc.len() as int] == (shift(x, px, mul) as usize, shift(y, py, mul) as usize));
                    assert(forall|t: int| 1 <= t < mul ==> #[trigger] at(g, shift(x, px, t), shift(y, py, t)) == 0);
                }
            }
        }
    }
}

/// A king captures only the first piece on a diagonal: for every capture
/// sequence of a king, the first captured piece lies on one of the four
/// diagonals from its cell and every cell between them is empty (it never
/// jumps over a piece of its own side).
pub proof fn law_king_captures_first_piece(g: Grid, x: int, y: int, color: int)
    requires
        grid_ok(g),
        on_board(x, y),
    ensures
        forall|k: int| 0 <= k < kill_moves_spec(g, x, y, color, true, seq![], None).len() ==> {
            let r = #[trigger] kill_moves_spec(g, x, y, color, true, seq![], None)[k];
            &&& r.2.len() > 0
            &&& exists|d: int, m: int|
                0 <= d < 4 && 1 <= m && r.2[0] == (shift(x, dir_x(d), m) as usize, shift(y, dir_y(d), m) as usize) && forall|t: int|
                    1 <= t < m ==> #[trigger] at(g, shift(x, dir_x(d), t), shift(y, dir_y(d), t)) == 0
        },
{
    let acc = Seq::<(usize, usize)>::empty();
    let all = kill_moves_spec(g, x, y, color, true, acc, None);
    assert(all == kill_dirs(g, x, y, color, true, acc, None, 4));
    let k0 = kill_dir(g, x, y, color, true, acc, None, 0);
    let k1 = kill_dir(g, x, y, color, true, acc, None, 1);
    let k2 = kill_dir(g, x, y, color, true, acc, None, 2);
    let k3 = kill_dir(g, x, y, color, true, acc, None, 3);
    assert(kill_dirs(g, x, y, color, true, acc, None, 0) == Seq::<MoveV>::empty());
    assert(kill_dirs(g, x, y, color, true, acc, None, 1) == kill_dirs(g, x, y, color, true, acc, None, 0) + k0);
    assert(kill_dirs(g, x, y, color, true, acc, None, 2) == kill_dirs(g, x, y, color, true, acc, None, 1) + k1);
    assert(kill_dirs(g, x, y, color, true, acc, None, 3) == kill_dirs(g, x, y, color, true, acc, None, 2) + k2);
    assert(kill_dirs(g, x, y, color, true, acc, None, 4) == kill_dirs(g, x, y, color, true, acc, None, 3) + k3);
    assert(all =~= k0 + k1 + k2 + k3);
    assert forall|k: int| 0 <= k < all.len() implies {
        let r = #[trigger] all[k];
        &&& r.2.len() > 0
        &&& exists|d: int, m: int|
            0 <= d < 4 && 1 <= m && r.2[0] == (shift(x, dir_x(d), m) as usize, shift(y, dir_y(d), m) as usize) && forall|t: int|
                1 <= t < m ==> #[trigger] at(g, shift(x, dir_x(d), t), shift(y, dir_y(d), t)) == 0
    } by {
        let (d, j) = if k < k0.len() {
            (0int, k)
        } else if k < k0.len() + k1.len() {
            (1int, k - k0.len())
        } else if k < k0.len() + k1.len() + k2.len() {
            (2int, k - k0.len() - k1.len())
        } else {
            (3int, k - k0.len() - k1.len() - k2.len())
        };
        let kd = kill_dir(g, x, y, color, true, acc, None, d);
        assert(all[k] == kd[j]);
        assert(0 <= j < kd.len());
        assert(kd == king_scan(g, x, y, color, acc, d, 1));
        lemma_king_scan_first(g, x, y, color, acc, d, 1);
        assert(kd[j] == king_scan(g, x, y, color, acc, d, 1)[j]);
    }
}

// ---------------------------------------------------------------------------
// Capture chains of men are maximal.

/// `g` with the cells of `ks` emptied, first to last.
pub open spec fn clear_cells(g: Grid, ks: Seq<(usize, usize)>) -> Grid
    decreases ks.len(),
{
    if ks.len() == 0 {
        g
    } else {
        clear_cells(put(g, ks[0].0 as int, ks[0].1 as int, 0), ks.drop_first())
    }
}

/// A man of side `color` on (`x`, `y`) can jump in direction `d`: an enemy on
/// the next cell and a free cell behind it.
pub open spec fn man_jump_at(g: Grid, x: int, y: int, color: int, d: int) -> bool {
    &&& on_board(x + 2 * dir_x(d), y + 2 * dir_y(d))
    &&& is_enemy(at(g, x + dir_x(d), y + dir_y(d)), color)
    &&& at(g, x + 2 * dir_x(d), y + 2 * dir_y(d)) == 0
}

/// The grid after a capture chain `r` of a man that started on (`x`, `y`):
/// the starting cell and the cells captured after the first `n` emptied, the
/// man on the final cell.
pub open spec fn after_chain(g: Grid, x: int, y: int, color: int, r: MoveV, n: int) -> Grid {
    put(clear_cells(put(g, x, y, 0), r.2.skip(n)), r.0 as int, r.1 as int, color as isize)
}

/// A man has a capture exactly when it can jump in one of the four directions.
proof fn lemma_man_kill_empty(g: Grid, x: int, y: int, color: int, acc: Seq<(usize, usize)>)
    requires
        search_ok(g, x, y, color),
    ensures
        kill_moves_spec(g, x, y, color, false, acc, None).len() == 0 <==> forall|d: int| 0 <= d < 4 ==> !#[trigger] man_jump_at(g, x, y, color, d),
{
    let k = kill_moves_spec(g, x, y, color, false, acc, None);
    assert(k == kill_dirs(g, x, y, color, false, acc, None, 4));
    assert(kill_dirs(g, x, y, color, false, acc, None, 0) == Seq::<MoveV>::empty());
    assert(kill_dir(g, x, y, color, false, acc, None, 0) == man_jump(g, x, y, color, acc, 0));
    assert(kill_dirs(g, x, y, color, false, acc, None, 1) == kill_dirs(g, x, y, color, false, acc, None, 0) + kill_dir(g, x, y, color, false, acc, None, 0));
    assert(kill_dir(g, x, y, color, false, acc, None, 1) == man_jump(g, x, y, color, acc, 1));
    assert(kill_dirs(g, x, y, color, false, acc, None, 2) == kill_dirs(g, x, y, color, false, acc, None, 1) + kill_dir(g, x, y, color, false, acc, None, 1));
    assert(kill_dir(g, x, y, color, false, acc, None, 2) == man_jump(g, x, y, color, acc, 2));
    assert(kill_dirs(g, x, y, color, false, acc, None, 3) == kill_dirs(g, x, y, color, false, acc, None, 2) + kill_dir(g, x, y, color, false, acc, None, 2));
    assert(kill_dir(g, x, y, color, false, acc, None, 3) == man_jump(g, x, y, color, acc, 3));
    assert(kill_dirs(g, x, y, color, false, acc, None, 4) == kill_dirs(g, x, y, color, false, acc, None, 3) + kill_dir(g, x, y, color, false, acc, None, 3));
    assert forall|d: int| 0 <= d < 4 implies (man_jump(g, x, y, color, acc, d).len() == 0 <==> !#[trigger] man_jump_at(g, x, y, color, d)) by {
        let mx = x + dir_x(d);
        let my = y + dir_y(d);
        let tx = x + 2 * dir_x(d);
        let ty = y + 2 * dir_y(d);
        if man_jump_at(g, x, y, color, d) {
            let killed = acc.push((mx as usize, my as usize));
            let g2 = put(put(put(g, x, y, 0), mx, my, 0), tx, ty, color as isize);
            let rest = kill_moves_spec(g2, tx, ty, color, false, killed, None);
            assert(man_jump(g, x, y, color, acc, d) == if rest.len() == 0 { seq![(tx as usize, ty as usize, killed)] } else { rest });
        }
    }
    if forall|d: int| 0 <= d < 4 ==> !#[trigger] man_jump_at(g, x, y, color, d) {
        assert(!man_jump_at(g, x, y, color, 0));
        assert(!man_jump_at(g, x, y, color, 1));
        assert(!man_jump_at(g, x, y, color, 2));
        assert(!man_jump_at(g, x, y, color, 3));
    } else {
        let d = choose|d: int| 0 <= d < 4 && man_jump_at(g, x, y, color, d);
        assert(man_jump(g, x, y, color, acc, d).len() > 0);
    }
}

proof fn lemma_man_chain_top(g: Grid, x: int, y: int, color: int, acc: Seq<(usize, usize)>)
    requires
        grid_ok(g),
        on_board(x, y),
        color_ok(color),
    ensures
        forall|k: int| 0 <= k < kill_moves_spec(g, x, y, color, false, acc, None).len() ==> {
            let r = #[trigger] kill_moves_spec(g, x, y, color, false, acc, None)[k];
            &&& r.2.len() >= acc.len()
            &&& r.2.subrange(0, acc.len() as int) == acc
            &&& on_board(r.0 as int, r.1 as int)
            &&& grid_ok(after_chain(g, x, y, color, r, acc.len() as int))
            &&& forall|d: int| 0 <= d < 4 ==> !#[trigger] man_jump_at(after_chain(g, x, y, color, r, acc.len() as int), r.0 as int, r.1 as int, color, d)
        },
    decreases grid_enemies(g, color), 5int, 0int,
{
    lemma_man_chain_dirs(g, x, y, color, acc, 4);
    assert(kill_moves_spec(g, x, y, color, false, acc, None) == kill_dirs(g, x, y, color, false, acc, None, 4));
}

proof fn lemma_man_chain_dirs(g: Grid, x: int, y: int, color: int, acc: Seq<(usize, usize)>, n: int)
    requires
        grid_ok(g),
        on_board(x, y),
        color_ok(color),
    ensures
        forall|k: int| 0 <= k < kill_dirs(g, x, y, color, false, acc, None, n).len() ==> {
            let r = #[trigger] kill_dirs(g, x, y, color, false, acc, None, n)[k];
            &&& r.2.len() >= acc.len()
            &&& r.2.subrange(0, acc.len() as int) == acc
            &&& on_board(r.0 as int, r.1 as int)
            &&& grid_ok(after_chain(g, x, y, color, r, acc.len() as int))
            &&& forall|d: int| 0 <= d < 4 ==> !#[trigger] man_jump_at(after_chain(g, x, y, color, r, acc.len() as int), r.0 as int, r.1 as int, color, d)
        },
    decreases grid_enemies(g, color), 4int, n,
{
    if n > 0 {
        lemma_man_chain_dirs(g, x, y, color, acc, n - 1);
        lemma_man_chain_jump(g, x, y, color, acc, n - 1);
        let a = kill_dirs(g, x, y, color, false, acc, None, n - 1);
        let b = man_jump(g, x, y, color, acc, n - 1);
        let all = kill_dirs(g, x, y, color, false, acc, None, n);
        assert(kill_dir(g, x, y, color, false, acc, None, n - 1) == b);
        assert(all == a + b);
        assert forall|k: int| 0 <= k < all.len() implies {
            let r = #[trigger] all[k];
            &&& r.2.len() >= acc.len()
            &&& r.2.subrange(0, acc.len() as int) == acc
            &&& on_board(r.0 as int, r.1 as int)
            &&& grid_ok(after_chain(g, x, y, color, r, acc.len() as int))
            &&& forall|d: int| 0 <= d < 4 ==> !#[trigger] man_jump_at(after_chain(g, x, y, color, r, acc.len() as int), r.0 as int, r.1 as int, color, d)
        } by {
            if k < a.len() {
                assert(all[k] == a[k]);
            } else {
                assert(all[k] == b[k - a.len()]);
            }
        }
    }
}

proof fn lemma_man_chain_jump(g: Grid, x: int, y: int, color: int, acc: Seq<(usize, usize)>, d: int)
    requires
        grid_ok(g),
        on_board(x, y),
        color_ok(color),
    ensures
        forall|k: int| 0 <= k < man_jump(g, x, y, color, acc, d).len() ==> {
            let r = #[trigger] man_jump(g, x, y, color, acc, d)[k];
            &&& r.2.len() >= acc.len()
            &&& r.2.subrange(0, acc.len() as int) == acc
            &&& on_board(r.0 as int, r.1 as int)
            &&& grid_ok(after_chain(g, x, y, color, r, acc.len() as int))
            &&& forall|e: int| 0 <= e < 4 ==> !#[trigger] man_jump_at(after_chain(g, x, y, color, r, acc.len() as int), r.0 as int, r.1 as int, color, e)
        },
    decreases grid_enemies(g, color), 2int, 0int,
{
    let mx = x + dir_x(d);
    let my = y + dir_y(d);
    let tx = x + 2 * dir_x(d);
    let ty = y + 2 * dir_y(d);
    if search_ok(g, x, y, color) && on_board(tx, ty) && is_enemy(at(g, mx, my), color) && at(g, tx, ty) == 0 {
        let m = (mx as usize, my as usize);
        let killed = acc.push(m);
        let h = put(g, x, y, 0);
        let h1 = put(h, mx, my, 0);
        let g2 = put(h1, tx, ty, color as isize);
        lemma_jump_enemies(g, x, y, color, mx, my, tx, ty);
        let rest = kill_moves_spec(g2, tx, ty, color, false, killed, None);
        let res = man_jump(g, x, y, color, acc, d);
        assert(res == if rest.len() == 0 { seq![(tx as usize, ty as usize, killed)] } else { rest });
        assert(on_board(mx, my));
        assert(grid_ok(h1));
        if rest.len() == 0 {
            let r = (tx as usize, ty as usize, killed);
            assert(res[0] == r);
            assert(r.2.skip(acc.len() as int) =~= seq![m]);
            assert(seq![m].drop_first() =~= Seq::<(usize, usize)>::empty());
            assert(clear_cells(h, seq![m]) == clear_cells(h1, Seq::<(usize, usize)>::empty()));
            assert(after_chain(g, x, y, color, r, acc.len() as int) == g2);
            assert(killed.subrange(0, acc.len() as int) =~= acc);
            lemma_man_kill_empty(g2, tx, ty, color, killed);
        } else {
            lemma_man_chain_top(g2, tx, ty, color, killed);
            assert(at(h1, tx, ty) == 0);
            lemma_put_same(h1, tx, ty);
            assert(put(g2, tx, ty, 0) =~~= put(h1, tx, ty, 0));
            assert(put(g2, tx, ty, 0) == h1);
            assert forall|k: int| 0 <= k < res.len() implies {
                let r = #[trigger] res[k];
                &&& r.2.len() >= acc.len()
                &&& r.2.subrange(0, acc.len() as int) == acc
                &&& on_board(r.0 as int, r.1 as int)
                &&& grid_ok(after_chain(g, x, y, color, r, acc.len() as int))
                &&& forall|e: int| 0 <= e < 4 ==> !#[trigger] man_jump_at(after_chain(g, x, y, color, r, acc.len() as int), r.0 as int, r.1 as int, color, e)
            } by {
                let r = res[k];
                assert(r == rest[k]);
                let p = r.2;
                assert(p.subrange(0, killed.len() as int) == killed);
                assert(p.subrange(0, acc.len() as int) =~= acc) by {
                    assert forall|j: int| 0 <= j < acc.len() implies p.subrange(0, acc.len() as int)[j] == acc[j] by {
                        assert(p[j] == p.subrange(0, killed.len() as int)[j]);
                    }
                }
                assert(p[acc.len() as int] == p.subrange(0, killed.len() as int)[acc.len() as int]);
                let sk = p.skip(acc.len() as int);
                assert(sk[0] == m);
                assert(sk.drop_first() =~= p.skip(killed.len() as int));
                assert(clear_cells(h, sk) == clear_cells(h1, p.skip(killed.len() as int)));
                assert(after_chain(g, x, y, color, r, acc.len() as int) == after_chain(g2, tx, ty, color, r, killed.len() as int));
            }
        }
    }
}

/// A man's capture chain stops only where it must: after the captured pieces
/// are taken off, the starting cell is emptied and the man stands on the final
/// cell, the man has no further capture from there.
pub proof fn law_man_capture_is_maximal(g: Grid, x: int, y: int, color: int)
    requires
        grid_ok(g),
        on_board(x, y),
        color_ok(color),
    ensures
        forall|k: int| 0 <= k < kill_moves_spec(g, x, y, color, false, seq![], None).len() ==> {
            let r = #[trigger] kill_moves_spec(g, x, y, color, false, seq![], None)[k];
            kill_moves_spec(
                put(clear_cells(put(g, x, y, 0), r.2), r.0 as int, r.1 as int, color as isize),
                r.0 as int,
                r.1 as int,
                color,
                false,
                seq![],
                None,
            ).len() == 0
        },
{
    lemma_man_chain_top(g, x, y, color, seq![]);
    let res = kill_moves_spec(g, x, y, color, false, seq![], None);
    assert forall|k: int| 0 <= k < res.len() implies {
        let r = #[trigger] res[k];
        kill_moves_spec(
            put(clear_cells(put(g, x, y, 0), r.2), r.0 as int, r.1 as int, color as isize),
            r.0 as int,
            r.1 as int,
            color,
            false,
            seq![],
            None,
        ).len() == 0
    } by {
        let r = res[k];
        assert(r.2.skip(0) =~= r.2);
        let h = after_chain(g, x, y, color, r, 0);
        lemma_man_kill_empty(h, r.0 as int, r.1 as int, color, seq![]);
    }
}

// ---------------------------------------------------------------------------
// Evaluation.

/// The number of live pieces among the first `n` of `s`.
pub open spec fn live_count(s: Seq<Checker>, n: int) -> int
    decreases n,
{
    if n <= 0 {
        0
    } else {
        live_count(s, n - 1) + if s[n - 1].live {
            1int
        } else {
            0int
        }
    }
}

/// The material term for `w` white and `b` black pieces:
/// `(w - b) / max(w, b) * CHECKER_DIFF_PRICE`, truncated towards zero; 0 on an empty board.
pub open spec fn balance_term(w: int, b: int) -> int {
    let m = if w > b {
        w
    } else {
        b
    };
    if m <= 0 {
        0
    } else if w >= b {
        (w - b) * CHECKER_DIFF_PRICE / m
    } else {
        -((b - w) * CHECKER_DIFF_PRICE / m)
    }
}

/// What a live piece adds for its own side: a king its price; a man
/// `NEAR_TO_KING_PRICE` for every row it has advanced towards its crowning row.
pub open spec fn piece_bonus(c: Checker, side: int) -> int {
    if c.king {
        KING_PRICE as int
    } else if side == 1 {
        (7 - c.y) * NEAR_TO_KING_PRICE
    } else {
        c.y * NEAR_TO_KING_PRICE
    }
}

/// The bonuses of the live pieces among the first `n` of `s`.
pub open spec fn bonus_sum(s: Seq<Checker>, side: int, n: int) -> int
    decreases n,
{
    if n <= 0 {
        0
    } else {
        bonus_sum(s, side, n - 1) + if s[n - 1].live {
            piece_bonus(s[n - 1], side)
        } else {
            0
        }
    }
}

/// Whether side `side` has a piece with at least one move.
pub open spec fn can_move(f: Position, side: int) -> bool {
    exists|i: int|
        0 <= i < 12 && (#[trigger] f.piece(i, side)).live && all_moves_spec(
            f.board(),
            f.piece(i, side).x as int,
            f.piece(i, side).y as int,
            side,
            f.piece(i, side).king,
        ).len() > 0
}

/// The score of a position in which both sides can move, from white's side.
pub open spec fn material(f: Position) -> int {
    balance_term(live_count(f.white, 12), live_count(f.black, 12)) + bonus_sum(f.white, 1, 12) - bonus_sum(
        f.black,
        -1,
        12,
    )
}

/// The score of a position from white's side: `WIN_PRICE + 1` when black
/// cannot move, `-(WIN_PRICE + 1)` when white cannot, else the material score.
pub open spec fn capacity_spec(f: Position) -> int {
    if !can_move(f, -1) {
        WIN_PRICE + 1
    } else if !can_move(f, 1) {
        -(WIN_PRICE + 1)
    } else {
        material(f)
    }
}

proof fn lemma_bonus_sum_bounds(f: Position, s: Seq<Checker>, side: int, n: int)
    requires
        0 <= n <= 12,
        s.len() == 12,
        forall|i: int| 0 <= i < 12 ==> #[trigger] s[i].live ==> s[i].y < 8,
    ensures
        0 <= bonus_sum(s, side, n) <= 500 * n,
        0 <= live_count(s, n) <= n,
    decreases n,
{
    if n > 0 {
        lemma_bonus_sum_bounds(f, s, side, n - 1);
        let c = s[n - 1];
        if c.live {
            assert(c.y < 8);
        }
    }
}

/// The material score lies well inside the range of decided positions.
pub proof fn lemma_material_bounds(f: Position)
    requires
        f.in_bounds(),
    ensures
        -8000 <= material(f) <= 8000,
        -(WIN_PRICE + 1) <= capacity_spec(f) <= WIN_PRICE + 1,
{
    assert forall|i: int| 0 <= i < 12 && #[trigger] f.white[i].live implies f.white[i].y < 8 by {
        assert(f.white_at(i) == f.white[i]);
    }
    assert forall|i: int| 0 <= i < 12 && #[trigger] f.black[i].live implies f.black[i].y < 8 by {
        assert(f.black_at(i) == f.black[i]);
    }
    lemma_bonus_sum_bounds(f, f.white, 1, 12);
    lemma_bonus_sum_bounds(f, f.black, -1, 12);
    let w = live_count(f.white, 12);
    let b = live_count(f.black, 12);
    let m = if w > b { w } else { b };
    if m > 0 {
        if w >= b {
            assert((w - b) * 2000 <= m * 2000) by (nonlinear_arith)
                requires
                    0 <= w - b <= m,
            ;
            assert((w - b) * 2000 / m <= 2000) by (nonlinear_arith)
                requires
                    (w - b) * 2000 <= m * 2000,
                    m > 0,
                    (w - b) >= 0,
            ;
            assert((w - b) * 2000 / m >= 0) by (nonlinear_arith)
                requires
                    m > 0,
                    (w - b) >= 0,
            ;
        } else {
            assert((b - w) * 2000 <= m * 2000) by (nonlinear_arith)
                requires
                    0 <= b - w <= m,
            ;
            assert((b - w) * 2000 / m <= 2000) by (nonlinear_arith)
                requires
                    (b - w) * 2000 <= m * 2000,
                    m > 0,
                    (b - w) >= 0,
            ;
            assert((b - w) * 2000 / m >= 0) by (nonlinear_arith)
                requires
                    m > 0,
                    (b - w) >= 0,
            ;
        }
    }
}

/// The material term for `w` white and `b` black pieces.
fn balance(w: usize, b: usize) -> (r: isize)
    requires
        w <= 12,
        b <= 12,
    ensures
        r == balance_term(w as int, b as int),
{
    let m = if w > b {
        w
    } else {
        b
    };
    if m == 0 {
        0
    } else if w >= b {
        assert(((w - b) * 2000) as int / (m as int) <= 2000) by (nonlinear_arith)
            requires
                0 <= w - b <= m,
                m > 0,
        ;
        (((w - b) * 2000) / m) as isize
    } else {
        assert(((b - w) * 2000) as int / (m as int) <= 2000) by (nonlinear_arith)
            requires
                0 <= b - w <= m,
                m > 0,
        ;
        -((((b - w) * 2000) / m) as isize)
    }
}

/// `p` with piece `i` of side `side` made a king where it stands.
pub open spec fn crowned(p: Position, side: int, i: int) -> Position {
    if side == 1 {
        Position { white: p.white.update(i, Checker { king: true, ..p.white[i] }), black: p.black }
    } else {
        Position { white: p.white, black: p.black.update(i, Checker { king: true, ..p.black[i] }) }
    }
}

proof fn lemma_counts_update(s: Seq<Checker>, side: int, i: int, c: Checker, n: int)
    requires
        0 <= i < s.len(),
        0 <= n <= s.len(),
        c.live == s[i].live,
    ensures
        live_count(s.update(i, c), n) == live_count(s, n),
        bonus_sum(s.update(i, c), side, n) == bonus_sum(s, side, n) + if i < n && c.live {
            piece_bonus(c, side) - piece_bonus(s[i], side)
        } else {
            0
        },
    decreases n,
{
    if n > 0 {
        lemma_counts_update(s, side, i, c, n - 1);
    }
}

/// A king is worth 500 to its side, a man 10 for every row it has advanced:
/// when both sides can move before and after, crowning a man where it stands
/// raises its side's score by 500 less its advancement bonus (white's score
/// rises for a white man, falls for a black one).
pub proof fn law_king_worth(p: Position, side: int, i: int)
    requires
        p.in_bounds(),
        side == 1 || side == -1,
        0 <= i < 12,
        p.piece(i, side).live,
        !p.piece(i, side).king,
        can_move(p, 1),
        can_move(p, -1),
        can_move(crowned(p, side, i), 1),
        can_move(crowned(p, side, i), -1),
    ensures
        capacity_spec(crowned(p, side, i)) == capacity_spec(p) + side * (500 - 10 * (if side == 1 {
            7 - p.piece(i, side).y
        } else {
            p.piece(i, side).y as int
        })),
{
    let q = crowned(p, side, i);
    if side == 1 {
        let c = Checker { king: true, ..p.white[i] };
        lemma_counts_update(p.white, 1, i, c, 12);
        assert(q.black == p.black);
    } else {
        let c = Checker { king: true, ..p.black[i] };
        lemma_counts_update(p.black, -1, i, c, 12);
        assert(q.white == p.white);
    }
}

/// The score of a position from white's side (for you, mr. White): see `capacity_spec`.
pub fn capacity(fld: &Field) -> (r: isize)
    requires
        fld@.in_bounds(),
    ensures
        r == capacity_spec(fld@),
{
    proof { lemma_material_bounds(fld@); }
    let mut wlen: usize = 0;
    let mut blen: usize = 0;
    for i in 0..12
        invariant
            wlen == live_count(fld@.white, i as int),
            blen == live_count(fld@.black, i as int),
            wlen <= i,
            blen <= i,
    {
        if fld.white[i].live {
            wlen = wlen + 1;
        }
        if fld.black[i].live {
            blen = blen + 1;
        }
    }
    let mut result: isize = balance(wlen, blen);
    let cache = fld.cache_field();
    let mut white_moves: bool = false;
    let mut wsum: isize = 0;
    for i in 0..12
        invariant
            fld@.in_bounds(),
            grid(*cache) == fld@.board(),
            wsum == bonus_sum(fld@.white, 1, i as int),
            0 <= wsum <= 500 * i,
            white_moves <==> exists|k: int|
                0 <= k < i && (#[trigger] fld@.piece(k, 1)).live && all_moves_spec(
                    fld@.board(),
                    fld@.piece(k, 1).x as int,
                    fld@.piece(k, 1).y as int,
                    1,
                    fld@.piece(k, 1).king,
                ).len() > 0,
    {
        let ch = fld.white[i];
        assert(ch == fld@.piece(i as int, 1));
        if ch.live {
            assert(ch.y < 8 && ch.x < 8) by { assert(checker_in_bounds(fld@.white_at(i as int))); }
            if ch.king {
                wsum = wsum + 500;
            } else {
                wsum = wsum + (7 - (ch.y as isize)) * 10;
            }
            let mv = all_moves(ch.x, ch.y, 1, ch.king, &cache);
            if mv.len() > 0 {
                white_moves = true;
            }
        }
    }
    let mut black_moves: bool = false;
    let mut bsum: isize = 0;
    for i in 0..12
        invariant
            fld@.in_bounds(),
            grid(*cache) == fld@.board(),
            bsum == bonus_sum(fld@.black, -1, i as int),
            0 <= bsum <= 500 * i,
            black_moves <==> exists|k: int|
                0 <= k < i && (#[trigger] fld@.piece(k, -1)).live && all_moves_spec(
                    fld@.board(),
                    fld@.piece(k, -1).x as int,
                    fld@.piece(k, -1).y as int,
                    -1,
                    fld@.piece(k, -1).king,
                ).len() > 0,
    {
        let ch = fld.black[i];
        assert(ch == fld@.piece(i as int, -1));
        if ch.live {
            assert(ch.y < 8 && ch.x < 8) by { assert(checker_in_bounds(fld@.black_at(i as int))); }
            if ch.king {
                bsum = bsum + 500;
            } else {
                bsum = bsum + (ch.y as isize) * 10;
            }
            let mv = all_moves(ch.x, ch.y, -1, ch.king, &cache);
            if mv.len() > 0 {
                black_moves = true;
            }
        }
    }
    if !black_moves {
        WIN_PRICE + 1
    } else if !white_moves {
        -(WIN_PRICE + 1)
    } else {
        result + wsum - bsum
    }
}

/// The score of a position from white's side.
pub fn capacity_white(f: &Field) -> (r: isize)
    requires
        f@.in_bounds(),
    ensures
        r == capacity_spec(f@),
{
    capacity(f)
}

/// The score of a position from black's side.
pub fn capacity_black(f: &Field) -> (r: isize)
    requires
        f@.in_bounds(),
    ensures
        r == -capacity_spec(f@),
{
    proof { lemma_material_bounds(f@); }
    -capacity(f)
}

} // verus!
