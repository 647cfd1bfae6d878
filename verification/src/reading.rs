use vstd::prelude::*;
use crate::field::{
    Checker, Position, stands_at, read_pieces, read_army, readable, kept_lines, board_text, row_text, cell_char, is_side_char,
    piece_code, valid_code, lemma_kept_board,
};
use crate::solve::sign;

verus! {

/// The index of cell (column `x`, row `y`) in reading order.
pub open spec fn cell_index(c: Checker) -> int {
    8 * c.y + c.x
}

proof fn lemma_div8(q: int)
    requires
        0 <= q,
    ensures
        q == 8 * (q / 8) + q % 8,
        0 <= q % 8 < 8,
{
}

/// The pieces read from the first `n` cells are live, stand on those cells
/// in reading order, and every such cell with a piece character gives one.
proof fn lemma_read_shape(l: Seq<Seq<char>>, side: int, n: int)
    requires
        0 <= n <= 64,
    ensures
        forall|t: int| 0 <= t < read_pieces(l, side, n).len() ==> {
            let c = #[trigger] read_pieces(l, side, n)[t];
            &&& c.live
            &&& c.x < 8
            &&& c.y < 8
            &&& cell_index(c) < n
            &&& is_side_char(l[c.y as int][c.x as int], side)
            &&& c.king == (l[c.y as int][c.x as int] == 'W' || l[c.y as int][c.x as int] == 'B')
        },
        forall|t1: int, t2: int|
            0 <= t1 < t2 < read_pieces(l, side, n).len() ==> cell_index(#[trigger] read_pieces(l, side, n)[t1]) < cell_index(
                #[trigger] read_pieces(l, side, n)[t2],
            ),
        forall|q: int|
            0 <= q < n && #[trigger] is_side_char(l[q / 8][q % 8], side) ==> exists|t: int|
                0 <= t < read_pieces(l, side, n).len() && cell_index(#[trigger] read_pieces(l, side, n)[t]) == q,
    decreases n,
{
    if n > 0 {
        lemma_read_shape(l, side, n - 1);
        let a = read_pieces(l, side, n - 1);
        let r = read_pieces(l, side, n);
        let i = (n - 1) / 8;
        let j = (n - 1) % 8;
        lemma_div8(n - 1);
        let ch = l[i][j];
        let nc = Checker { x: j as usize, y: i as usize, king: ch == 'W' || ch == 'B', live: true };
        assert(r == a + if is_side_char(ch, side) { seq![nc] } else { Seq::<Checker>::empty() });
        assert(cell_index(nc) == n - 1);
        assert forall|t: int| 0 <= t < r.len() implies {
            let c = #[trigger] r[t];
            &&& c.live
            &&& c.x < 8
            &&& c.y < 8
            &&& cell_index(c) < n
            &&& is_side_char(l[c.y as int][c.x as int], side)
            &&& c.king == (l[c.y as int][c.x as int] == 'W' || l[c.y as int][c.x as int] == 'B')
        } by {
            if t < a.len() {
                assert(r[t] == a[t]);
            } else {
                assert(r[t] == nc);
            }
        }
        assert forall|t1: int, t2: int| 0 <= t1 < t2 < r.len() implies cell_index(#[trigger] r[t1]) < cell_index(#[trigger] r[t2]) by {
            assert(r[t1] == a[t1]);
            if t2 < a.len() {
                assert(r[t2] == a[t2]);
            } else {
                assert(r[t2] == nc);
                assert(cell_index(a[t1]) < n - 1);
            }
        }
        assert forall|q: int| 0 <= q < n && #[trigger] is_side_char(l[q / 8][q % 8], side) implies exists|t: int|
            0 <= t < r.len() && cell_index(#[trigger] r[t]) == q by {
            if q < n - 1 {
                let t = choose|t: int| 0 <= t < a.len() && cell_index(#[trigger] a[t]) == q;
                assert(r[t] == a[t]);
            } else {
                assert(r[a.len() as int] == nc);
            }
        }
    }
}

/// The rows of the board text.
pub open spec fn board_rows(p: Position) -> Seq<Seq<char>> {
    Seq::new(8, |i: int| row_text(p, i))
}

/// How many of the first `m` pieces of side `side` are live and stand on one
/// of the first `n` cells in reading order.
pub open spec fn count_standing(p: Position, side: int, n: int, m: int) -> int
    decreases m,
{
    if m <= 0 {
        0
    } else {
        count_standing(p, side, n, m - 1) + if p.piece(m - 1, side).live && p.piece(m - 1, side).x < 8 && cell_index(
            p.piece(m - 1, side),
        ) < n {
            1int
        } else {
            0int
        }
    }
}

proof fn lemma_count_nonneg(p: Position, side: int, n: int, m: int)
    ensures
        count_standing(p, side, n, m) >= 0,
    decreases m,
{
    if m > 0 {
        lemma_count_nonneg(p, side, n, m - 1);
    }
}

proof fn lemma_count_step(p: Position, side: int, n: int, m: int)
    requires
        n >= 1,
        m >= 0,
    ensures
        count_standing(p, side, n, m) >= count_standing(p, side, n - 1, m),
        (exists|j: int| 0 <= j < m && #[trigger] stands_at(p.piece(j, side), (n - 1) % 8, (n - 1) / 8)) ==> count_standing(p, side, n, m)
            >= count_standing(p, side, n - 1, m) + 1,
        count_standing(p, side, n, m) <= m,
    decreases m,
{
    lemma_div8(n - 1);
    if m > 0 {
        lemma_count_step(p, side, n, m - 1);
        if exists|j: int| 0 <= j < m && #[trigger] stands_at(p.piece(j, side), (n - 1) % 8, (n - 1) / 8) {
            let j = choose|j: int| 0 <= j < m && #[trigger] stands_at(p.piece(j, side), (n - 1) % 8, (n - 1) / 8);
            if j == m - 1 {
                assert(cell_index(p.piece(m - 1, side)) == n - 1);
            } else {
                assert(stands_at(p.piece(j, side), (n - 1) % 8, (n - 1) / 8));
            }
        }
    }
}

/// A cell shows a piece character of side `side` exactly when its cache value
/// belongs to that side.
proof fn lemma_side_char_code(v: isize, i: int, j: int, side: int)
    requires
        side == 1 || side == -1,
        valid_code(v),
    ensures
        is_side_char(cell_char(v, i, j), side) <==> (v != 0 && (v > 0) == (side == 1)),
        cell_char(v, i, j) == 'W' || cell_char(v, i, j) == 'B' <==> (v == 2 || v == -2),
{
}

proof fn lemma_read_count(p: Position, side: int, n: int)
    requires
        p.in_bounds(),
        side == 1 || side == -1,
        0 <= n <= 64,
    ensures
        read_pieces(board_rows(p), side, n).len() <= count_standing(p, side, n, 12),
    decreases n,
{
    lemma_count_nonneg(p, side, n, 12);
    if n > 0 {
        lemma_read_count(p, side, n - 1);
        lemma_count_step(p, side, n, 12);
        lemma_div8(n - 1);
        let i = (n - 1) / 8;
        let j = (n - 1) % 8;
        let l = board_rows(p);
        assert(l[i][j] == cell_char(p.cell(j, i), i, j));
        let nc = Checker { x: j as usize, y: i as usize, king: l[i][j] == 'W' || l[i][j] == 'B', live: true };
        assert(read_pieces(l, side, n) == read_pieces(l, side, n - 1) + if is_side_char(l[i][j], side) {
            seq![nc]
        } else {
            Seq::<Checker>::empty()
        });
        p.lemma_codes();
        lemma_side_char_code(p.cell(j, i), i, j, side);
        if is_side_char(l[i][j], side) {
            crate::laws::lemma_cell_holds(p, 12, j, i);
            let (k, s) = choose|k: int, s: int|
                0 <= k < 12 && (s == 1 || s == -1) && #[trigger] stands_at(p.piece(k, s), j, i) && sign(p.cell(j, i) as int) == s;
            assert(s == side);
            assert(stands_at(p.piece(k, side), (n - 1) % 8, (n - 1) / 8));
        }
    }
}

/// The position that `read` builds from the text of `p`'s board.
pub open spec fn reread(p: Position) -> Position {
    let l = kept_lines(board_text(p, 8));
    Position { white: read_army(l, 1), black: read_army(l, -1) }
}

pub(crate) proof fn lemma_cell_upto_none(q: Position, n: int, x: int, y: int)
    requires
        n <= 12,
        forall|k: int, s: int| 0 <= k < n && (s == 1 || s == -1) ==> !#[trigger] stands_at(q.piece(k, s), x, y),
    ensures
        q.cell_upto(n, x, y) == 0,
    decreases n,
{
    if n > 0 {
        assert(!stands_at(q.piece(n - 1, 1), x, y));
        assert(!stands_at(q.piece(n - 1, -1), x, y));
        lemma_cell_upto_none(q, n - 1, x, y);
    }
}

pub(crate) proof fn lemma_cell_upto_one(q: Position, n: int, x: int, y: int, k0: int, s0: int)
    requires
        n <= 12,
        0 <= k0 < 12,
        s0 == 1 || s0 == -1,
        stands_at(q.piece(k0, s0), x, y),
        forall|k: int, s: int|
            0 <= k < 12 && (s == 1 || s == -1) && (k != k0 || s != s0) ==> !#[trigger] stands_at(q.piece(k, s), x, y),
    ensures
        q.cell_upto(n, x, y) == if k0 < n {
            piece_code(q.piece(k0, s0), s0)
        } else {
            0
        },
    decreases n,
{
    if n > 0 {
        assert(stands_at(q.piece(n - 1, 1), x, y) ==> n - 1 == k0 && s0 == 1);
        assert(stands_at(q.piece(n - 1, -1), x, y) ==> n - 1 == k0 && s0 == -1);
        lemma_cell_upto_one(q, n - 1, x, y, k0, s0);
    }
}

/// Which pieces of the re-read position stand on a cell.
proof fn lemma_reread_stands(p: Position, s: int, x: int, y: int)
    requires
        p.in_bounds(),
        s == 1 || s == -1,
        0 <= x < 8,
        0 <= y < 8,
    ensures
        ({
            let l = board_rows(p);
            let ch = l[y][x];
            &&& forall|k: int| 0 <= k < 12 && #[trigger] stands_at(reread(p).piece(k, s), x, y) ==> is_side_char(ch, s)
                && reread(p).piece(k, s).king == (ch == 'W' || ch == 'B')
            &&& forall|k1: int, k2: int|
                0 <= k1 < 12 && 0 <= k2 < 12 && #[trigger] stands_at(reread(p).piece(k1, s), x, y) && #[trigger] stands_at(
                    reread(p).piece(k2, s),
                    x,
                    y,
                ) ==> k1 == k2
            &&& is_side_char(ch, s) ==> exists|k: int| 0 <= k < 12 && #[trigger] stands_at(reread(p).piece(k, s), x, y)
        }),
{
    let l = board_rows(p);
    lemma_kept_board(p);
    assert(kept_lines(board_text(p, 8)) == l);
    let ps = read_pieces(l, s, 64);
    lemma_read_shape(l, s, 64);
    lemma_read_count(p, s, 64);
    lemma_count_step(p, s, 64, 12);
    assert(ps.len() <= 12);
    let q = reread(p);
    assert forall|k: int| 0 <= k < 12 implies #[trigger] q.piece(k, s) == (if k < ps.len() {
        ps[k]
    } else {
        Checker { x: 0, y: 0, king: false, live: false }
    }) by {
        assert(q.piece(k, s) == read_army(l, s)[k]);
    }
    let ch = l[y][x];
    assert forall|k: int| 0 <= k < 12 && #[trigger] stands_at(q.piece(k, s), x, y) implies is_side_char(ch, s) && q.piece(k, s).king
        == (ch == 'W' || ch == 'B') by {
        assert(k < ps.len());
        assert(ps[k] == q.piece(k, s));
    }
    assert forall|k1: int, k2: int|
        0 <= k1 < 12 && 0 <= k2 < 12 && #[trigger] stands_at(q.piece(k1, s), x, y) && #[trigger] stands_at(q.piece(k2, s), x, y) implies k1
        == k2 by {
        assert(k1 < ps.len() && k2 < ps.len());
        assert(ps[k1] == q.piece(k1, s));
        assert(ps[k2] == q.piece(k2, s));
        if k1 < k2 {
            assert(cell_index(ps[k1]) < cell_index(ps[k2]));
        } else if k2 < k1 {
            assert(cell_index(ps[k2]) < cell_index(ps[k1]));
        }
    }
    if is_side_char(ch, s) {
        let c = 8 * y + x;
        lemma_div8(c);
        assert(c / 8 == y && c % 8 == x);
        assert(is_side_char(l[c / 8][c % 8], s));
        let t = choose|t: int| 0 <= t < ps.len() && cell_index(#[trigger] ps[t]) == c;
        assert(ps[t].x < 8);
        assert(ps[t].x == x && ps[t].y == y);
        assert(q.piece(t, s) == ps[t]);
        assert(stands_at(q.piece(t, s), x, y));
    }
}

proof fn lemma_reread_cell(p: Position, x: int, y: int)
    requires
        p.in_bounds(),
        0 <= x < 8,
        0 <= y < 8,
    ensures
        reread(p).cell(x, y) == p.cell(x, y),
{
    let q = reread(p);
    let l = board_rows(p);
    let v = p.cell(x, y);
    let ch = l[y][x];
    assert(ch == cell_char(v, y, x));
    p.lemma_codes();
    lemma_side_char_code(v, y, x, 1);
    lemma_side_char_code(v, y, x, -1);
    lemma_reread_stands(p, 1, x, y);
    lemma_reread_stands(p, -1, x, y);
    if v == 0 {
        assert forall|k: int, s: int| 0 <= k < 12 && (s == 1 || s == -1) implies !#[trigger] stands_at(q.piece(k, s), x, y) by {
            if stands_at(q.piece(k, s), x, y) {
                assert(is_side_char(ch, s));
            }
        }
        lemma_cell_upto_none(q, 12, x, y);
    } else {
        let s0: int = if v > 0 { 1 } else { -1 };
        assert(is_side_char(ch, s0));
        let k0 = choose|k: int| 0 <= k < 12 && #[trigger] stands_at(q.piece(k, s0), x, y);
        assert forall|k: int, s: int| 0 <= k < 12 && (s == 1 || s == -1) && (k != k0 || s != s0) implies !#[trigger] stands_at(
            q.piece(k, s),
            x,
            y,
        ) by {
            if stands_at(q.piece(k, s), x, y) {
                assert(is_side_char(ch, s));
                if s == s0 {
                    assert(stands_at(q.piece(k0, s0), x, y));
                }
            }
        }
        lemma_cell_upto_one(q, 12, x, y, k0, s0);
        assert(q.piece(k0, s0).king == (ch == 'W' || ch == 'B'));
    }
}

/// `read` gives back the board that `show` prints: reading the text of a board
/// is accepted, and the position read has the same cell cache.
pub proof fn law_read_gives_back_shown_board(p: Position)
    requires
        p.in_bounds(),
    ensures
        readable(board_text(p, 8)),
        reread(p).in_bounds(),
        reread(p).board() == p.board(),
{
    let l = board_rows(p);
    lemma_kept_board(p);
    assert(kept_lines(board_text(p, 8)) == l);
    lemma_read_count(p, 1, 64);
    lemma_count_step(p, 1, 64, 12);
    lemma_read_count(p, -1, 64);
    lemma_count_step(p, -1, 64, 12);
    let q = reread(p);
    lemma_read_shape(l, 1, 64);
    lemma_read_shape(l, -1, 64);
    assert forall|k: int| 0 <= k < 12 implies crate::field::checker_in_bounds(#[trigger] q.white_at(k)) by {
        if k < read_pieces(l, 1, 64).len() {
            assert(q.white_at(k) == read_pieces(l, 1, 64)[k]);
        }
    }
    assert forall|k: int| 0 <= k < 12 implies crate::field::checker_in_bounds(#[trigger] q.black_at(k)) by {
        if k < read_pieces(l, -1, 64).len() {
            assert(q.black_at(k) == read_pieces(l, -1, 64)[k]);
        }
    }
    assert forall|r: int, c: int| 0 <= r < 8 && 0 <= c < 8 implies #[trigger] q.cell(c, r) == p.cell(c, r) by {
        lemma_reread_cell(p, c, r);
    }
    assert(q.board() =~~= p.board());
}

} // verus!
