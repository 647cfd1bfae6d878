use vstd::prelude::*;
use crate::solve::{
    Grid, MoveV, grid_ok, on_board, at, free, is_enemy, shift, dir_x, dir_y, search_ok, color_ok, ray, simple_moves_spec,
    kill_moves_spec, kill_dirs, kill_dir, man_jump, man_jump_at, king_scan, landing, king_continue, all_moves_spec, put,
    can_move, capacity_spec, live_count, bonus_sum, balance_term, piece_bonus,
};
use crate::field::{Checker, Position, stands_at, checker_in_bounds};
use crate::laws::distinct_cells;
use crate::reading::{lemma_cell_upto_none, lemma_cell_upto_one};

verus! {

/// `h` is `g` seen from the other side: rows reversed and every piece of the
/// other colour.
pub open spec fn mirrored(h: Grid, g: Grid) -> bool {
    &&& grid_ok(g)
    &&& grid_ok(h)
    &&& forall|a: int, b: int| on_board(a, b) ==> #[trigger] at(h, a, b) == -at(g, a, 7 - b)
}

/// The direction with the same column step and the opposite row step.
pub open spec fn flip_dir(d: int) -> int {
    3 - d
}

proof fn lemma_free_mirror(h: Grid, g: Grid, a: int, b: int)
    requires
        mirrored(h, g),
    ensures
        free(h, a, b) <==> free(g, a, 7 - b),
{
    if on_board(a, b) {
        assert(at(h, a, b) == -at(g, a, 7 - b));
    }
}

proof fn lemma_enemy_mirror(h: Grid, g: Grid, a: int, b: int, s: int)
    requires
        mirrored(h, g),
        on_board(a, b),
        color_ok(s),
    ensures
        is_enemy(at(h, a, b), s) <==> is_enemy(at(g, a, 7 - b), -s),
{
    assert(at(h, a, b) == -at(g, a, 7 - b));
}

/// A king's ray is empty exactly when its first cell is not free.
proof fn lemma_ray_first(g: Grid, x: int, y: int, dx: int, dy: int)
    ensures
        ray(g, x, y, dx, dy, 1).len() > 0 <==> free(g, shift(x, dx, 1), shift(y, dy, 1)),
{
}

proof fn lemma_simple_mirror(h: Grid, g: Grid, x: int, y: int, s: int, king: bool)
    requires
        mirrored(h, g),
        color_ok(s),
    ensures
        simple_moves_spec(h, x, 7 - y, s, king).len() > 0 <==> simple_moves_spec(g, x, y, -s, king).len() > 0,
{
    if !king {
        lemma_free_mirror(h, g, x - 1, 7 - y - s);
        lemma_free_mirror(h, g, x + 1, 7 - y - s);
    } else {
        lemma_ray_first(h, x, 7 - y, 1, 1);
        lemma_ray_first(h, x, 7 - y, 1, -1);
        lemma_ray_first(h, x, 7 - y, -1, 1);
        lemma_ray_first(h, x, 7 - y, -1, -1);
        lemma_ray_first(g, x, y, 1, 1);
        lemma_ray_first(g, x, y, 1, -1);
        lemma_ray_first(g, x, y, -1, 1);
        lemma_ray_first(g, x, y, -1, -1);
        lemma_free_mirror(h, g, x + 1, 7 - y + 1);
        lemma_free_mirror(h, g, x + 1, 7 - y - 1);
        lemma_free_mirror(h, g, x - 1, 7 - y + 1);
        lemma_free_mirror(h, g, x - 1, 7 - y - 1);
    }
}

/// A king finds a capture in direction `d` from distance `mul` on.
pub open spec fn king_hits(g: Grid, x: int, y: int, color: int, d: int, mul: int) -> bool
    decreases 8 - mul,
{
    let px = dir_x(d);
    let py = dir_y(d);
    if !search_ok(g, x, y, color) || mul < 1 || mul >= 8 || !on_board(shift(x, px, mul + 1), shift(y, py, mul + 1)) {
        false
    } else {
        let c = at(g, shift(x, px, mul), shift(y, py, mul));
        if c == 0 {
            king_hits(g, x, y, color, d, mul + 1)
        } else if !is_enemy(c, color) {
            false
        } else {
            free(g, shift(x, px, mul + 1), shift(y, py, mul + 1))
        }
    }
}

proof fn lemma_king_scan_hits(g: Grid, x: int, y: int, color: int, acc: Seq<(usize, usize)>, d: int, mul: int)
    ensures
        king_scan(g, x, y, color, acc, d, mul).len() > 0 <==> king_hits(g, x, y, color, d, mul),
    decreases 8 - mul,
{
    let px = dir_x(d);
    let py = dir_y(d);
    if !(!search_ok(g, x, y, color) || mul < 1 || mul >= 8 || !on_board(shift(x, px, mul + 1), shift(y, py, mul + 1))) {
        let ex = shift(x, px, mul);
        let ey = shift(y, py, mul);
        let c = at(g, ex, ey);
        if c == 0 {
            lemma_king_scan_hits(g, x, y, color, acc, d, mul + 1);
        } else if is_enemy(c, color) {
            let cells = landing(g, x, y, px, py, mul + 1);
            assert(cells.len() > 0 <==> free(g, shift(x, px, mul + 1), shift(y, py, mul + 1)));
            if cells.len() > 0 {
                let killed = acc.push((ex as usize, ey as usize));
                let g2 = put(put(g, x, y, 0), ex, ey, 0);
                let cont = king_continue(g2, color, killed, d, cells, cells.len() as int);
                let res = king_scan(g, x, y, color, acc, d, mul);
                assert(res == if cont.len() == 0 { cells.map_values(|c: (usize, usize)| (c.0, c.1, killed)) } else { cont });
            }
        }
    }
}

proof fn lemma_king_hits_mirror(h: Grid, g: Grid, x: int, y: int, s: int, d: int, mul: int)
    requires
        mirrored(h, g),
        color_ok(s),
        0 <= d < 4,
        on_board(x, y),
    ensures
        king_hits(h, x, 7 - y, s, d, mul) <==> king_hits(g, x, y, -s, flip_dir(d), mul),
    decreases 8 - mul,
{
    let px = dir_x(d);
    let py = dir_y(d);
    assert(dir_x(flip_dir(d)) == px && dir_y(flip_dir(d)) == -py);
    assert(shift(7 - y, py, mul + 1) == 7 - shift(y, -py, mul + 1));
    assert(shift(7 - y, py, mul) == 7 - shift(y, -py, mul));
    if !(mul < 1 || mul >= 8 || !on_board(shift(x, px, mul + 1), shift(y, -py, mul + 1))) {
        assert(on_board(shift(x, px, mul), shift(y, -py, mul)));
        lemma_enemy_mirror(h, g, shift(x, px, mul), shift(7 - y, py, mul), s);
        assert(at(h, shift(x, px, mul), shift(7 - y, py, mul)) == -at(g, shift(x, px, mul), shift(y, -py, mul)));
        lemma_free_mirror(h, g, shift(x, px, mul + 1), shift(7 - y, py, mul + 1));
        lemma_king_hits_mirror(h, g, x, y, s, d, mul + 1);
    }
}

/// A man can jump in direction `d` exactly when `man_jump` gives a result.
proof fn lemma_man_jump_nonempty(g: Grid, x: int, y: int, color: int, acc: Seq<(usize, usize)>, d: int)
    requires
        search_ok(g, x, y, color),
    ensures
        man_jump(g, x, y, color, acc, d).len() > 0 <==> man_jump_at(g, x, y, color, d),
{
    let mx = x + dir_x(d);
    let my = y + dir_y(d);
    let tx = x + 2 * dir_x(d);
    let ty = y + 2 * dir_y(d);
    if man_jump_at(g, x, y, color, d) {
        let killed = acc.push((mx as usize, my as usize));
        let g2 = put(put(put(g, x, y, 0), mx, my, 0), tx, ty, color as isize);
        let rest = kill_moves_spec(g2, tx, ty, color, false, killed, None);
        assert(man_jump(g, x, y, color, acc, d) == if rest.len() == 0 { seq![(tx as usize, ty as usize, killed)] } else { rest });
    }
}

proof fn lemma_man_jump_at_mirror(h: Grid, g: Grid, x: int, y: int, s: int, d: int)
    requires
        mirrored(h, g),
        color_ok(s),
        0 <= d < 4,
        on_board(x, y),
    ensures
        man_jump_at(h, x, 7 - y, s, d) <==> man_jump_at(g, x, y, -s, flip_dir(d)),
{
    let px = dir_x(d);
    let py = dir_y(d);
    assert(dir_x(flip_dir(d)) == px && dir_y(flip_dir(d)) == -py);
    if on_board(x + 2 * px, 7 - y + 2 * py) {
        assert(on_board(x + px, 7 - y + py));
        lemma_enemy_mirror(h, g, x + px, 7 - y + py, s);
        lemma_free_mirror(h, g, x + 2 * px, 7 - y + 2 * py);
    }
}

/// The captures of a piece with no earlier jump exist exactly when one of
/// the four directions gives one.
proof fn lemma_kill_some_dir(g: Grid, x: int, y: int, color: int, king: bool)
    ensures
        kill_moves_spec(g, x, y, color, king, seq![], None).len() > 0 <==> exists|d: int|
            0 <= d < 4 && #[trigger] kill_dir(g, x, y, color, king, seq![], None, d).len() > 0,
{
    let acc = Seq::<(usize, usize)>::empty();
    assert(kill_moves_spec(g, x, y, color, king, acc, None) == kill_dirs(g, x, y, color, king, acc, None, 4));
    assert(kill_dirs(g, x, y, color, king, acc, None, 0) == Seq::<MoveV>::empty());
    assert(kill_dirs(g, x, y, color, king, acc, None, 1) == kill_dirs(g, x, y, color, king, acc, None, 0) + kill_dir(g, x, y, color, king, acc, None, 0));
    assert(kill_dirs(g, x, y, color, king, acc, None, 2) == kill_dirs(g, x, y, color, king, acc, None, 1) + kill_dir(g, x, y, color, king, acc, None, 1));
    assert(kill_dirs(g, x, y, color, king, acc, None, 3) == kill_dirs(g, x, y, color, king, acc, None, 2) + kill_dir(g, x, y, color, king, acc, None, 2));
    assert(kill_dirs(g, x, y, color, king, acc, None, 4) == kill_dirs(g, x, y, color, king, acc, None, 3) + kill_dir(g, x, y, color, king, acc, None, 3));
    if exists|d: int| 0 <= d < 4 && #[trigger] kill_dir(g, x, y, color, king, acc, None, d).len() > 0 {
        let d = choose|d: int| 0 <= d < 4 && #[trigger] kill_dir(g, x, y, color, king, acc, None, d).len() > 0;
        assert(d == 0 || d == 1 || d == 2 || d == 3);
    }
}

/// Whether a direction gives a capture, as plain conditions.
proof fn lemma_kill_dir_hits(g: Grid, x: int, y: int, color: int, king: bool, d: int)
    requires
        search_ok(g, x, y, color),
    ensures
        kill_dir(g, x, y, color, king, seq![], None, d).len() > 0 <==> if king {
            king_hits(g, x, y, color, d, 1)
        } else {
            man_jump_at(g, x, y, color, d)
        },
{
    if king {
        lemma_king_scan_hits(g, x, y, color, seq![], d, 1);
    } else {
        lemma_man_jump_nonempty(g, x, y, color, seq![], d);
    }
}

/// A piece has a move on a board exactly when the piece of the other colour on
/// the reflected cell has one on the reflected board.
pub proof fn lemma_moves_mirror(h: Grid, g: Grid, x: int, y: int, s: int, king: bool)
    requires
        mirrored(h, g),
        color_ok(s),
        on_board(x, y),
    ensures
        all_moves_spec(h, x, 7 - y, s, king).len() > 0 <==> all_moves_spec(g, x, y, -s, king).len() > 0,
{
    lemma_simple_mirror(h, g, x, y, s, king);
    lemma_kill_some_dir(h, x, 7 - y, s, king);
    lemma_kill_some_dir(g, x, y, -s, king);
    let acc = Seq::<(usize, usize)>::empty();
    assert forall|d: int| 0 <= d < 4 implies (#[trigger] kill_dir(h, x, 7 - y, s, king, acc, None, d).len() > 0 <==> kill_dir(
        g,
        x,
        y,
        -s,
        king,
        acc,
        None,
        flip_dir(d),
    ).len() > 0) by {
        lemma_kill_dir_hits(h, x, 7 - y, s, king, d);
        lemma_kill_dir_hits(g, x, y, -s, king, flip_dir(d));
        if king {
            lemma_king_hits_mirror(h, g, x, y, s, d, 1);
        } else {
            lemma_man_jump_at_mirror(h, g, x, y, s, d);
        }
    }
    let kh = kill_moves_spec(h, x, 7 - y, s, king, acc, None);
    let kg = kill_moves_spec(g, x, y, -s, king, acc, None);
    if kh.len() > 0 {
        let d = choose|d: int| 0 <= d < 4 && #[trigger] kill_dir(h, x, 7 - y, s, king, acc, None, d).len() > 0;
        assert(kill_dir(g, x, y, -s, king, acc, None, flip_dir(d)).len() > 0);
    }
    if kg.len() > 0 {
        let d = choose|d: int| 0 <= d < 4 && #[trigger] kill_dir(g, x, y, -s, king, acc, None, d).len() > 0;
        assert(flip_dir(flip_dir(d)) == d);
        assert(kill_dir(h, x, 7 - y, s, king, acc, None, flip_dir(d)).len() > 0);
    }
}

/// A piece reflected to the row on the other side of the board.
pub open spec fn flip_checker(c: Checker) -> Checker {
    Checker { x: c.x, y: (7 - c.y) as usize, king: c.king, live: c.live }
}

/// The board seen from the other side: the colours swapped and the rows
/// reversed (row `y` becomes row `7 - y`).
pub open spec fn mirror(p: Position) -> Position {
    Position { white: p.black.map_values(|c: Checker| flip_checker(c)), black: p.white.map_values(|c: Checker| flip_checker(c)) }
}

proof fn lemma_mirror_piece(p: Position)
    requires
        p.in_bounds(),
    ensures
        mirror(p).in_bounds(),
        forall|k: int, s: int| 0 <= k < 12 && (s == 1 || s == -1) ==> #[trigger] mirror(p).piece(k, s) == flip_checker(p.piece(k, -s)),
        forall|k: int, s: int| 0 <= k < 12 && (s == 1 || s == -1) && #[trigger] p.piece(k, s).live ==> p.piece(k, s).y < 8 && p.piece(k, s).x < 8,
{
    let m = mirror(p);
    assert forall|k: int, s: int| 0 <= k < 12 && (s == 1 || s == -1) implies #[trigger] m.piece(k, s) == flip_checker(p.piece(k, -s)) by {
        if s == 1 {
            assert(m.white_at(k) == flip_checker(p.black[k]));
        } else {
            assert(m.black_at(k) == flip_checker(p.white[k]));
        }
    }
    assert forall|k: int, s: int| 0 <= k < 12 && (s == 1 || s == -1) && #[trigger] p.piece(k, s).live implies p.piece(k, s).y < 8
        && p.piece(k, s).x < 8 by {
        assert(checker_in_bounds(p.white_at(k)));
        assert(checker_in_bounds(p.black_at(k)));
    }
    assert forall|k: int| 0 <= k < 12 implies checker_in_bounds(#[trigger] m.white_at(k)) by {
        assert(m.white_at(k) == m.piece(k, 1));
        assert(p.piece(k, -1).live ==> p.piece(k, -1).y < 8);
    }
    assert forall|k: int| 0 <= k < 12 implies checker_in_bounds(#[trigger] m.black_at(k)) by {
        assert(m.black_at(k) == m.piece(k, -1));
        assert(p.piece(k, 1).live ==> p.piece(k, 1).y < 8);
    }
}

proof fn lemma_mirror_board(p: Position)
    requires
        p.in_bounds(),
        distinct_cells(p),
    ensures
        mirrored(mirror(p).board(), p.board()),
{
    let m = mirror(p);
    lemma_mirror_piece(p);
    assert forall|a: int, b: int| on_board(a, b) implies #[trigger] at(m.board(), a, b) == -at(p.board(), a, 7 - b) by {
        assert(at(m.board(), a, b) == m.cell(a, b));
        assert(at(p.board(), a, 7 - b) == p.cell(a, 7 - b));
        assert forall|k: int, s: int| 0 <= k < 12 && (s == 1 || s == -1) implies (#[trigger] stands_at(m.piece(k, s), a, b) <==> stands_at(
            p.piece(k, -s),
            a,
            7 - b,
        )) by {
            assert(m.piece(k, s) == flip_checker(p.piece(k, -s)));
            if p.piece(k, -s).live {
                assert(p.piece(k, -s).y < 8);
            }
        }
        if exists|k: int, s: int| 0 <= k < 12 && (s == 1 || s == -1) && #[trigger] stands_at(p.piece(k, s), a, 7 - b) {
            let (k0, s0) = choose|k: int, s: int| 0 <= k < 12 && (s == 1 || s == -1) && #[trigger] stands_at(p.piece(k, s), a, 7 - b);
            assert forall|k: int, s: int| 0 <= k < 12 && (s == 1 || s == -1) && (k != k0 || s != s0) implies !#[trigger] stands_at(
                p.piece(k, s),
                a,
                7 - b,
            ) by {
                if stands_at(p.piece(k, s), a, 7 - b) {
                    assert(p.piece(k0, s0).live && p.piece(k, s).live);
                }
            }
            lemma_cell_upto_one(p, 12, a, 7 - b, k0, s0);
            assert(stands_at(m.piece(k0, -s0), a, b));
            assert forall|k: int, s: int| 0 <= k < 12 && (s == 1 || s == -1) && (k != k0 || s != -s0) implies !#[trigger] stands_at(
                m.piece(k, s),
                a,
                b,
            ) by {
                if stands_at(m.piece(k, s), a, b) {
                    assert(stands_at(p.piece(k, -s), a, 7 - b));
                }
            }
            lemma_cell_upto_one(m, 12, a, b, k0, -s0);
            assert(m.piece(k0, -s0) == flip_checker(p.piece(k0, s0)));
        } else {
            lemma_cell_upto_none(p, 12, a, 7 - b);
            assert forall|k: int, s: int| 0 <= k < 12 && (s == 1 || s == -1) implies !#[trigger] stands_at(m.piece(k, s), a, b) by {
                if stands_at(m.piece(k, s), a, b) {
                    assert(stands_at(p.piece(k, -s), a, 7 - b));
                }
            }
            lemma_cell_upto_none(m, 12, a, b);
        }
    }
}

/// A side can move on the reflected board exactly when the other side can on
/// the board itself.
proof fn lemma_can_move_mirror(p: Position, s: int)
    requires
        p.in_bounds(),
        distinct_cells(p),
        s == 1 || s == -1,
    ensures
        can_move(mirror(p), s) <==> can_move(p, -s),
{
    let m = mirror(p);
    lemma_mirror_piece(p);
    lemma_mirror_board(p);
    assert forall|i: int| 0 <= i < 12 && (#[trigger] p.piece(i, -s)).live implies (all_moves_spec(
        m.board(),
        m.piece(i, s).x as int,
        m.piece(i, s).y as int,
        s,
        m.piece(i, s).king,
    ).len() > 0 <==> all_moves_spec(p.board(), p.piece(i, -s).x as int, p.piece(i, -s).y as int, -s, p.piece(i, -s).king).len() > 0) by {
        let c = p.piece(i, -s);
        assert(m.piece(i, s) == flip_checker(c));
        assert(c.y < 8 && c.x < 8);
        lemma_moves_mirror(m.board(), p.board(), c.x as int, c.y as int, s, c.king);
    }
    if can_move(m, s) {
        let i = choose|i: int|
            0 <= i < 12 && (#[trigger] m.piece(i, s)).live && all_moves_spec(
                m.board(),
                m.piece(i, s).x as int,
                m.piece(i, s).y as int,
                s,
                m.piece(i, s).king,
            ).len() > 0;
        assert(m.piece(i, s) == flip_checker(p.piece(i, -s)));
        assert(p.piece(i, -s).live);
    }
    if can_move(p, -s) {
        let i = choose|i: int|
            0 <= i < 12 && (#[trigger] p.piece(i, -s)).live && all_moves_spec(
                p.board(),
                p.piece(i, -s).x as int,
                p.piece(i, -s).y as int,
                -s,
                p.piece(i, -s).king,
            ).len() > 0;
        assert(m.piece(i, s) == flip_checker(p.piece(i, -s)));
        assert(m.piece(i, s).live);
    }
}

proof fn lemma_counts_mirror(a: Seq<Checker>, side: int, n: int)
    requires
        0 <= n <= a.len(),
        side == 1 || side == -1,
        forall|k: int| 0 <= k < a.len() && (#[trigger] a[k]).live ==> a[k].y < 8,
    ensures
        live_count(a.map_values(|c: Checker| flip_checker(c)), n) == live_count(a, n),
        bonus_sum(a.map_values(|c: Checker| flip_checker(c)), -side, n) == bonus_sum(a, side, n),
    decreases n,
{
    if n > 0 {
        lemma_counts_mirror(a, side, n - 1);
        let f = a.map_values(|c: Checker| flip_checker(c));
        assert(f[n - 1] == flip_checker(a[n - 1]));
        if a[n - 1].live {
            assert(a[n - 1].y < 8);
            assert(piece_bonus(f[n - 1], -side) == piece_bonus(a[n - 1], side));
        }
    }
}

proof fn lemma_balance_swap(w: int, b: int)
    ensures
        balance_term(b, w) == -balance_term(w, b),
{
    if w == b && w > 0 {
        assert(0int * 2000 / w == 0) by (nonlinear_arith)
            requires
                w > 0,
        ;
    }
}

/// The score is antisymmetric: seen from the other side (colours swapped and
/// rows reversed) a board scores the negative, provided no two pieces share a
/// cell and at least one side can move.
pub proof fn law_capacity_antisymmetric(p: Position)
    requires
        p.in_bounds(),
        distinct_cells(p),
        can_move(p, 1) || can_move(p, -1),
    ensures
        capacity_spec(mirror(p)) == -capacity_spec(p),
{
    let m = mirror(p);
    lemma_mirror_piece(p);
    lemma_can_move_mirror(p, 1);
    lemma_can_move_mirror(p, -1);
    assert forall|k: int| 0 <= k < p.black.len() && (#[trigger] p.black[k]).live implies p.black[k].y < 8 by {
        assert(p.black[k] == p.piece(k, -1));
    }
    assert forall|k: int| 0 <= k < p.white.len() && (#[trigger] p.white[k]).live implies p.white[k].y < 8 by {
        assert(p.white[k] == p.piece(k, 1));
    }
    lemma_counts_mirror(p.black, -1, 12);
    lemma_counts_mirror(p.white, 1, 12);
    lemma_balance_swap(live_count(p.white, 12), live_count(p.black, 12));
}

} // verus!
