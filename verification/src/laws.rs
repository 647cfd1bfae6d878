use vstd::prelude::*;
use crate::field::{Checker, Position, initial_piece, checker_in_bounds, stands_at};
use crate::solve::{
    all_moves_spec, kill_moves_spec, color_ok, lemma_all_moves, lemma_kill_safe, on_board, fresh_kills, kills_ok, grid_ok, put, at,
    is_enemy, sign, MoveV,
};
use crate::ai::{
    candidates_upto, captures, capture_upto, legal_moves, must_capture, piece_moves, best_moves_spec,
    max_root_value, root_value, move_tuple, lemma_best_move_origin, MoveTuple, Color, apply_move, kill_all, kill_first_from,
    lemma_kill_all,
};
use crate::ui::{play, kill_located, kill_located_all, move_located, movable_upto};

verus! {

proof fn lemma_candidates_capture(p: Position, side: int, n: int, mc: bool)
    requires
        n <= 12,
    ensures
        forall|k: int| 0 <= k < candidates_upto(p, side, n, mc).len() ==> {
            let c = #[trigger] candidates_upto(p, side, n, mc)[k];
            0 <= c.0 < n && piece_moves(p, side, c.0).contains(c.1) && (mc ==> captures(piece_moves(p, side, c.0)))
        },
    decreases n,
{
    if n > 0 {
        lemma_candidates_capture(p, side, n - 1, mc);
        let ms = piece_moves(p, side, n - 1);
        let prev = candidates_upto(p, side, n - 1, mc);
        let tail = if !mc || captures(ms) {
            ms.map_values(|m: MoveV| (n - 1, m))
        } else {
            seq![]
        };
        let all = candidates_upto(p, side, n, mc);
        assert(all == prev + tail);
        assert forall|k: int| 0 <= k < all.len() implies {
            let c = #[trigger] all[k];
            0 <= c.0 < n && piece_moves(p, side, c.0).contains(c.1) && (mc ==> captures(piece_moves(p, side, c.0)))
        } by {
            if k < prev.len() {
                assert(all[k] == prev[k]);
            } else {
                let j = k - prev.len();
                assert(all[k] == tail[j]);
                assert(ms.contains(ms[j]));
            }
        }
    }
}

/// Capturing is mandatory: when some piece of the side can capture, every legal
/// move captures at least one piece; otherwise no legal move captures.
pub proof fn law_capture_is_mandatory(p: Position, side: int)
    ensures
        forall|k: int| 0 <= k < legal_moves(p, side).len() ==> ((#[trigger] legal_moves(p, side)[k]).1.2.len() > 0 <==> must_capture(p, side)),
{
    let mc = must_capture(p, side);
    lemma_candidates_capture(p, side, 12, mc);
    assert forall|k: int| 0 <= k < legal_moves(p, side).len() implies ((#[trigger] legal_moves(p, side)[k]).1.2.len() > 0
        <==> must_capture(p, side)) by {
        let c = legal_moves(p, side)[k];
        let i = c.0;
        let ms = piece_moves(p, side, i);
        let pc = p.piece(i, side);
        let j = choose|j: int| 0 <= j < ms.len() && ms[j] == c.1;
        assert(pc.live);
        lemma_all_moves(p.board(), pc.x as int, pc.y as int, side, pc.king);
        if kill_moves_spec(p.board(), pc.x as int, pc.y as int, side, pc.king, seq![], None).len() > 0 {
            assert(ms[0].2.len() > 0);
            assert(captures(piece_moves(p, side, i)));
            assert(capture_upto(p, side, 12));
        } else {
            assert(ms[j].2.len() == 0);
            if mc {
                assert(captures(ms));
                assert(ms[0].2.len() == 0);
            }
        }
    }
}

/// Every cell offered among the first `n` pieces is the cell of one of them
/// that has a move (a capture, when `mc` holds).
proof fn lemma_movable_origin(p: Position, side: int, n: int, mc: bool)
    ensures
        forall|t: int| 0 <= t < movable_upto(p, side, n, mc).len() ==> exists|i: int|
            #![trigger p.piece(i, side)]
            0 <= i < n && (#[trigger] movable_upto(p, side, n, mc)[t]) == (p.piece(i, side).x, p.piece(i, side).y)
                && piece_moves(p, side, i).len() > 0 && (!mc || captures(piece_moves(p, side, i))),
    decreases n,
{
    if n > 0 {
        lemma_movable_origin(p, side, n - 1, mc);
        let ms = piece_moves(p, side, n - 1);
        let c = p.piece(n - 1, side);
        let mprev = movable_upto(p, side, n - 1, mc);
        let mall = movable_upto(p, side, n, mc);
        let keep = ms.len() > 0 && (!mc || captures(ms));
        assert(mall == mprev + if keep { seq![(c.x, c.y)] } else { Seq::<(usize, usize)>::empty() });
        assert forall|t: int| 0 <= t < mall.len() implies exists|i: int|
            #![trigger p.piece(i, side)]
            0 <= i < n && #[trigger] mall[t] == (p.piece(i, side).x, p.piece(i, side).y)
                && piece_moves(p, side, i).len() > 0 && (!mc || captures(piece_moves(p, side, i))) by {
            if t < mprev.len() {
                assert(mall[t] == mprev[t]);
                let i = choose|i: int|
                    #![trigger p.piece(i, side)]
                    0 <= i < n - 1 && mprev[t] == (p.piece(i, side).x, p.piece(i, side).y)
                        && piece_moves(p, side, i).len() > 0 && (!mc || captures(piece_moves(p, side, i)));
                assert(0 <= i < n && mall[t] == (p.piece(i, side).x, p.piece(i, side).y));
            } else {
                assert(mall[t] == (c.x, c.y));
            }
        }
    }
}

/// Every piece among the first `n` that has a move (a capture, when `mc`
/// holds) is offered, and gives a candidate move.
proof fn lemma_movable_complete(p: Position, side: int, n: int, mc: bool)
    ensures
        forall|i: int| 0 <= i < n && (#[trigger] piece_moves(p, side, i)).len() > 0 && (!mc || captures(piece_moves(p, side, i)))
            ==> movable_upto(p, side, n, mc).contains((p.piece(i, side).x, p.piece(i, side).y))
                && exists|k: int| 0 <= k < candidates_upto(p, side, n, mc).len() && (#[trigger] candidates_upto(p, side, n, mc)[k]).0 == i,
    decreases n,
{
    if n > 0 {
        lemma_movable_complete(p, side, n - 1, mc);
        let ms = piece_moves(p, side, n - 1);
        let c = p.piece(n - 1, side);
        let mprev = movable_upto(p, side, n - 1, mc);
        let mall = movable_upto(p, side, n, mc);
        let cprev = candidates_upto(p, side, n - 1, mc);
        let call = candidates_upto(p, side, n, mc);
        let keep = ms.len() > 0 && (!mc || captures(ms));
        assert(mall == mprev + if keep { seq![(c.x, c.y)] } else { Seq::<(usize, usize)>::empty() });
        assert(call == cprev + if !mc || captures(ms) { ms.map_values(|m: MoveV| (n - 1, m)) } else { Seq::<(int, MoveV)>::empty() });
        assert forall|i: int| 0 <= i < n && (#[trigger] piece_moves(p, side, i)).len() > 0 && (!mc || captures(piece_moves(p, side, i)))
            implies mall.contains((p.piece(i, side).x, p.piece(i, side).y))
                && exists|k: int| 0 <= k < call.len() && (#[trigger] call[k]).0 == i by {
            if i < n - 1 {
                let t = choose|t: int| 0 <= t < mprev.len() && mprev[t] == (p.piece(i, side).x, p.piece(i, side).y);
                assert(mall[t] == mprev[t]);
                let k = choose|k: int| 0 <= k < cprev.len() && (#[trigger] cprev[k]).0 == i;
                assert(call[k] == cprev[k]);
            } else {
                assert(mall[mprev.len() as int] == (c.x, c.y));
                assert(call[cprev.len() as int] == (n - 1, ms[0]));
            }
        }
    }
}

/// The pieces offered to the player (see `available_chess`) are exactly the
/// pieces that make the legal moves of the side.
pub proof fn law_available_pieces_make_the_legal_moves(p: Position, side: int)
    ensures
        forall|x: usize, y: usize|
            #[trigger] movable_upto(p, side, 12, must_capture(p, side)).contains((x, y)) <==> exists|k: int|
                0 <= k < legal_moves(p, side).len() && p.piece((#[trigger] legal_moves(p, side)[k]).0, side).x == x
                    && p.piece(legal_moves(p, side)[k].0, side).y == y,
{
    let mc = must_capture(p, side);
    let l = legal_moves(p, side);
    let mv = movable_upto(p, side, 12, mc);
    lemma_movable_origin(p, side, 12, mc);
    lemma_movable_complete(p, side, 12, mc);
    lemma_candidates_capture(p, side, 12, mc);
    assert forall|x: usize, y: usize| #[trigger] mv.contains((x, y)) implies exists|k: int|
        0 <= k < l.len() && p.piece((#[trigger] l[k]).0, side).x == x && p.piece(l[k].0, side).y == y by {
        let t = choose|t: int| 0 <= t < mv.len() && mv[t] == (x, y);
        let i = choose|i: int|
            #![trigger p.piece(i, side)]
            0 <= i < 12 && mv[t] == (p.piece(i, side).x, p.piece(i, side).y) && piece_moves(p, side, i).len() > 0
                && (!mc || captures(piece_moves(p, side, i)));
        assert(piece_moves(p, side, i).len() > 0);
        let k = choose|k: int| 0 <= k < l.len() && (#[trigger] l[k]).0 == i;
        assert(l[k].0 == i);
    }
    assert forall|x: usize, y: usize| (exists|k: int|
        0 <= k < l.len() && p.piece((#[trigger] l[k]).0, side).x == x && p.piece(l[k].0, side).y == y) implies #[trigger] mv.contains((x, y)) by {
        let k = choose|k: int| 0 <= k < l.len() && p.piece((#[trigger] l[k]).0, side).x == x && p.piece(l[k].0, side).y == y;
        let c = l[k];
        let i = c.0;
        assert(0 <= i < 12 && piece_moves(p, side, i).contains(c.1) && (mc ==> captures(piece_moves(p, side, i))));
        assert(piece_moves(p, side, i).len() > 0);
    }
}

/// The cells a legal move captures lie on the board, hold pieces of the other
/// side, and are all different.
pub proof fn law_captures_are_distinct_enemies(p: Position, side: int)
    requires
        p.in_bounds(),
    ensures
        forall|k: int| 0 <= k < legal_moves(p, side).len() ==> fresh_kills(p.board(), side, 0, (#[trigger] legal_moves(p, side)[k]).1.2),
{
    let mc = must_capture(p, side);
    let l = legal_moves(p, side);
    let g = p.board();
    lemma_candidates_capture(p, side, 12, mc);
    assert(grid_ok(g));
    assert forall|k: int| 0 <= k < l.len() implies fresh_kills(g, side, 0, (#[trigger] l[k]).1.2) by {
        let c = l[k];
        let i = c.0;
        let ms = piece_moves(p, side, i);
        let pc = p.piece(i, side);
        assert(ms.contains(c.1));
        assert(pc.live);
        assert(pc.x < 8 && pc.y < 8) by {
            assert(checker_in_bounds(p.white_at(i)));
            assert(checker_in_bounds(p.black_at(i)));
        }
        let x = pc.x as int;
        let y = pc.y as int;
        let j = choose|j: int| 0 <= j < ms.len() && ms[j] == c.1;
        let path = c.1.2;
        if kill_moves_spec(g, x, y, side, pc.king, seq![], None).len() > 0 {
            lemma_kill_safe(g, x, y, side, pc.king, seq![], None);
            let h = put(g, x, y, 0);
            assert(fresh_kills(h, side, 0, ms[j].2));
            assert forall|t: int| 0 <= t < path.len() implies on_board((#[trigger] path[t]).0 as int, path[t].1 as int) && is_enemy(
                at(g, path[t].0 as int, path[t].1 as int),
                side,
            ) by {
                assert(is_enemy(at(h, path[t].0 as int, path[t].1 as int), side));
                if path[t].0 as int != x || path[t].1 as int != y {
                    assert(at(h, path[t].0 as int, path[t].1 as int) == at(g, path[t].0 as int, path[t].1 as int));
                }
            }
        } else {
            lemma_all_moves(g, x, y, side, pc.king);
            assert(ms[j].2.len() == 0);
        }
    }
}

/// A chosen move is a legal move of the greatest value: no legal move is worth more.
pub proof fn law_best_moves_are_best(p: Position, side: int, depth: int, heur: int, t: MoveTuple)
    requires
        best_moves_spec(p, side, depth, heur).contains(t),
    ensures
        exists|k: int|
            0 <= k < legal_moves(p, side).len() && t == move_tuple(p, side, #[trigger] legal_moves(p, side)[k])
                && root_value(p, side, depth, heur, legal_moves(p, side)[k]) == max_root_value(p, side, depth, heur),
        forall|k: int|
            0 <= k < legal_moves(p, side).len() ==> root_value(p, side, depth, heur, #[trigger] legal_moves(p, side)[k])
                <= max_root_value(p, side, depth, heur),
{
    lemma_best_move_origin(p, side, depth, heur, t);
    let l = legal_moves(p, side);
    crate::ai::lemma_best_bounds(p, side, depth, heur);
}

/// A chosen move captures exactly when capturing is possible.
pub proof fn law_chosen_move_captures_iff_possible(p: Position, side: int, depth: int, heur: int, t: MoveTuple)
    requires
        best_moves_spec(p, side, depth, heur).contains(t),
    ensures
        t.4.len() > 0 <==> must_capture(p, side),
{
    lemma_best_move_origin(p, side, depth, heur, t);
    law_capture_is_mandatory(p, side);
}

proof fn lemma_kill_located_in_bounds(p: Position, x: int, y: int)
    requires
        p.in_bounds(),
    ensures
        kill_located(p, x, y).in_bounds(),
{
    p.lemma_locate(x, y);
    let q = kill_located(p, x, y);
    assert forall|i: int| 0 <= i < 12 implies checker_in_bounds(#[trigger] q.white_at(i)) by {
        assert(checker_in_bounds(p.white_at(i)));
    }
    assert forall|i: int| 0 <= i < 12 implies checker_in_bounds(#[trigger] q.black_at(i)) by {
        assert(checker_in_bounds(p.black_at(i)));
    }
}

proof fn lemma_kill_located_all_in_bounds(p: Position, killed: Seq<(usize, usize)>)
    requires
        p.in_bounds(),
    ensures
        kill_located_all(p, killed).in_bounds(),
    decreases killed.len(),
{
    if killed.len() > 0 {
        lemma_kill_located_all_in_bounds(p, killed.drop_last());
        lemma_kill_located_in_bounds(kill_located_all(p, killed.drop_last()), killed.last().0 as int, killed.last().1 as int);
    }
}

/// Playing a move that ends on the board keeps every live piece on the board.
pub proof fn law_play_keeps_in_bounds(p: Position, side: int, m: MoveTuple)
    requires
        p.in_bounds(),
        on_board(m.2 as int, m.3 as int),
    ensures
        play(p, side, m).in_bounds(),
{
    lemma_kill_located_all_in_bounds(p, m.4);
    let q = kill_located_all(p, m.4);
    q.lemma_locate(m.0 as int, m.1 as int);
    let r = play(p, side, m);
    assert forall|i: int| 0 <= i < 12 implies checker_in_bounds(#[trigger] r.white_at(i)) by {
        assert(checker_in_bounds(q.white_at(i)));
    }
    assert forall|i: int| 0 <= i < 12 implies checker_in_bounds(#[trigger] r.black_at(i)) by {
        assert(checker_in_bounds(q.black_at(i)));
    }
}

/// Playing a legal move on the board (see `play`, as `ai_step` and
/// `move_line` do) puts the moving piece on the destination; it is a king
/// afterwards exactly when it was one before or it reaches its crowning row
/// (row 0 for white, row 7 for black): a king stays a king.
pub proof fn law_played_piece_crowning(p: Position, side: int, k: int)
    requires
        p.in_bounds(),
        distinct_cells(p),
        side == 1 || side == -1,
        0 <= k < legal_moves(p, side).len(),
    ensures
        ({
            let c = legal_moves(p, side)[k];
            let r = play(p, side, move_tuple(p, side, c));
            &&& 0 <= c.0 < 12
            &&& r.piece(c.0, side).live
            &&& r.piece(c.0, side).x == c.1.0
            &&& r.piece(c.0, side).y == c.1.1
            &&& r.piece(c.0, side).king <==> (p.piece(c.0, side).king || (side == 1 && c.1.1 == 0) || (side == -1 && c.1.1 == 7))
        }),
{
    let c = legal_moves(p, side)[k];
    lemma_candidates_capture(p, side, 12, must_capture(p, side));
    assert(piece_moves(p, side, c.0).contains(c.1));
    law_play_matches_search(p, side, k);
    crate::ai::law_moved_piece_crowning(p, side, c.0, c.1);
}

/// No two live pieces stand on one cell.
pub open spec fn distinct_cells(p: Position) -> bool {
    forall|i1: int, s1: int, i2: int, s2: int|
        0 <= i1 < 12 && 0 <= i2 < 12 && (s1 == 1 || s1 == -1) && (s2 == 1 || s2 == -1) && (i1 != i2 || s1 != s2)
            && (#[trigger] p.piece(i1, s1)).live && (#[trigger] p.piece(i2, s2)).live ==> p.piece(i1, s1).x != p.piece(i2, s2).x
            || p.piece(i1, s1).y != p.piece(i2, s2).y
}

/// `p` with the pieces of the side opposite to `side` on the cells `ks` taken off.
spec fn kill_side(p: Position, side: int, ks: Seq<(usize, usize)>) -> Position {
    if side == 1 {
        Position { white: p.white, black: kill_all(p.black, ks) }
    } else {
        Position { white: kill_all(p.white, ks), black: p.black }
    }
}

/// A cell whose cache value is not 0 holds a live piece of the side that the
/// value's sign tells.
pub(crate) proof fn lemma_cell_holds(p: Position, n: int, x: int, y: int)
    requires
        n <= 12,
    ensures
        p.cell_upto(n, x, y) != 0 ==> exists|j: int, s: int|
            0 <= j < n && (s == 1 || s == -1) && #[trigger] stands_at(p.piece(j, s), x, y) && sign(p.cell_upto(n, x, y) as int) == s,
    decreases n,
{
    if n > 0 {
        lemma_cell_holds(p, n - 1, x, y);
        if stands_at(p.black_at(n - 1), x, y) {
            assert(stands_at(p.piece(n - 1, -1), x, y));
        } else if stands_at(p.white_at(n - 1), x, y) {
            assert(stands_at(p.piece(n - 1, 1), x, y));
        }
    }
}

/// On a board with distinct cells, `locate` finds a live piece on its own cell.
proof fn lemma_locate_unique(p: Position, i: int, s: int)
    requires
        distinct_cells(p),
        0 <= i < 12,
        s == 1 || s == -1,
        p.piece(i, s).live,
    ensures
        p.locate(p.piece(i, s).x as int, p.piece(i, s).y as int) == Some((i, s)),
{
    let x = p.piece(i, s).x as int;
    let y = p.piece(i, s).y as int;
    assert(stands_at(p.piece(i, s), x, y));
    assert(p.occupied(x, y));
    p.lemma_occupied_locate(x, y);
    p.lemma_locate(x, y);
    let (i2, s2) = p.locate(x, y)->0;
    assert(p.piece(i2, s2).live);
}

proof fn lemma_kill_first_other(s: Seq<Checker>, x: int, y: int, i: int, j: int)
    requires
        0 <= j < s.len(),
        !stands_at(s[j], x, y),
    ensures
        kill_first_from(s, x, y, i).len() == s.len(),
        kill_first_from(s, x, y, i)[j] == s[j],
    decreases s.len() - i,
{
    if !(i < 0 || i >= s.len()) && !stands_at(s[i], x, y) {
        lemma_kill_first_other(s, x, y, i + 1, j);
    }
}

proof fn lemma_kill_first_unique(s: Seq<Checker>, x: int, y: int, i: int, j: int)
    requires
        0 <= i <= j < s.len(),
        stands_at(s[j], x, y),
        forall|k: int| 0 <= k < s.len() && k != j ==> !stands_at(#[trigger] s[k], x, y),
    ensures
        kill_first_from(s, x, y, i) == s.update(j, Checker { live: false, ..s[j] }),
    decreases s.len() - i,
{
    if i < j {
        assert(!stands_at(s[i], x, y));
        lemma_kill_first_unique(s, x, y, i + 1, j);
    }
}

/// A piece that stands on none of the cells `ks` is left as it is.
proof fn lemma_kill_all_other(s: Seq<Checker>, ks: Seq<(usize, usize)>, j: int)
    requires
        0 <= j < s.len(),
        forall|t: int| 0 <= t < ks.len() ==> !stands_at(s[j], (#[trigger] ks[t]).0 as int, ks[t].1 as int),
    ensures
        kill_all(s, ks)[j] == s[j],
    decreases ks.len(),
{
    if ks.len() > 0 {
        let front = ks.drop_last();
        assert forall|t: int| 0 <= t < front.len() implies !stands_at(s[j], (#[trigger] front[t]).0 as int, front[t].1 as int) by {
            assert(front[t] == ks[t]);
        }
        lemma_kill_all_other(s, front, j);
        lemma_kill_all(s, front);
        assert(!stands_at(s[j], ks[ks.len() - 1].0 as int, ks[ks.len() - 1].1 as int));
        lemma_kill_first_other(kill_all(s, front), ks.last().0 as int, ks.last().1 as int, 0, j);
    }
}

proof fn lemma_kill_side_distinct(p: Position, side: int, ks: Seq<(usize, usize)>)
    requires
        p.in_bounds(),
        distinct_cells(p),
        side == 1 || side == -1,
    ensures
        distinct_cells(kill_side(p, side, ks)),
        kill_side(p, side, ks).white.len() == 12,
        kill_side(p, side, ks).black.len() == 12,
        forall|i: int, s: int|
            0 <= i < 12 && (s == 1 || s == -1) ==> {
                let a = #[trigger] kill_side(p, side, ks).piece(i, s);
                let b = p.piece(i, s);
                a.x == b.x && a.y == b.y && a.king == b.king && (a.live ==> b.live)
            },
{
    lemma_kill_all(p.black, ks);
    lemma_kill_all(p.white, ks);
    let q = kill_side(p, side, ks);
    assert forall|i: int, s: int| 0 <= i < 12 && (s == 1 || s == -1) implies {
        let a = #[trigger] q.piece(i, s);
        let b = p.piece(i, s);
        a.x == b.x && a.y == b.y && a.king == b.king && (a.live ==> b.live)
    } by {
        assert(q.piece(i, s) == (if s == 1 { q.white[i] } else { q.black[i] }));
        assert(p.piece(i, s) == (if s == 1 { p.white[i] } else { p.black[i] }));
    }
    assert forall|i1: int, s1: int, i2: int, s2: int|
        0 <= i1 < 12 && 0 <= i2 < 12 && (s1 == 1 || s1 == -1) && (s2 == 1 || s2 == -1) && (i1 != i2 || s1 != s2)
            && (#[trigger] q.piece(i1, s1)).live && (#[trigger] q.piece(i2, s2)).live implies q.piece(i1, s1).x != q.piece(i2, s2).x
            || q.piece(i1, s1).y != q.piece(i2, s2).y by {
        assert(p.piece(i1, s1).live && p.piece(i2, s2).live);
    }
}

/// Taking off the located pieces on the cells of a capture path, one after the
/// other, takes off the enemy pieces on those cells.
proof fn lemma_kills_match(p: Position, side: int, path: Seq<(usize, usize)>, t: int)
    requires
        p.in_bounds(),
        distinct_cells(p),
        side == 1 || side == -1,
        fresh_kills(p.board(), side, 0, path),
        0 <= t <= path.len(),
    ensures
        kill_located_all(p, path.take(t)) == kill_side(p, side, path.take(t)),
    decreases t,
{
    if t == 0 {
        assert(path.take(0) =~= Seq::<(usize, usize)>::empty());
        assert(kill_side(p, side, path.take(0)) == p);
    } else {
        lemma_kills_match(p, side, path, t - 1);
        let ks = path.take(t - 1);
        let q = kill_side(p, side, ks);
        let e = path[t - 1];
        let ex = e.0 as int;
        let ey = e.1 as int;
        assert(path.take(t).drop_last() =~= ks);
        assert(path.take(t).last() == e);
        assert(kill_located_all(p, path.take(t)) == kill_located(q, ex, ey));
        let g = p.board();
        assert(on_board(ex, ey) && is_enemy(at(g, ex, ey), side));
        assert(at(g, ex, ey) == p.cell(ex, ey));
        lemma_cell_holds(p, 12, ex, ey);
        let (j, s) = choose|j: int, s: int|
            0 <= j < 12 && (s == 1 || s == -1) && #[trigger] stands_at(p.piece(j, s), ex, ey) && sign(p.cell(ex, ey) as int) == s;
        assert(s == -side);
        let en = if side == 1 { p.black } else { p.white };
        assert(en[j] == p.piece(j, -side));
        assert forall|u: int| 0 <= u < ks.len() implies !stands_at(en[j], (#[trigger] ks[u]).0 as int, ks[u].1 as int) by {
            assert(ks[u] == path[u]);
            assert(path[u] != path[t - 1]);
        }
        lemma_kill_all_other(en, ks, j);
        lemma_kill_side_distinct(p, side, ks);
        assert(q.piece(j, -side) == p.piece(j, -side));
        lemma_locate_unique(q, j, -side);
        assert(q.locate(ex, ey) == Some((j, -side)));
        let qen = kill_all(en, ks);
        assert forall|k: int| 0 <= k < qen.len() && k != j implies !stands_at(#[trigger] qen[k], ex, ey) by {
            assert(qen[k] == q.piece(k, -side));
            if stands_at(qen[k], ex, ey) {
                assert(q.piece(j, -side).live);
                assert(q.piece(k, -side).live);
            }
        }
        assert(qen[j] == q.piece(j, -side));
        lemma_kill_first_unique(qen, ex, ey, 0, j);
        assert(path.take(t).last() == e);
        assert(kill_all(en, path.take(t)) == kill_first_from(qen, ex, ey, 0));
        assert(kill_located(q, ex, ey) =~~= kill_side(p, side, path.take(t)));
    }
}

/// The engine plays the move it scored: on a board where no two pieces share a
/// cell, playing a legal move on the board (see `play`, as `ai_step` and
/// `move_line` do) gives the position that the search evaluated for it (see
/// `apply_move`).
pub proof fn law_play_matches_search(p: Position, side: int, k: int)
    requires
        p.in_bounds(),
        distinct_cells(p),
        side == 1 || side == -1,
        0 <= k < legal_moves(p, side).len(),
    ensures
        play(p, side, move_tuple(p, side, legal_moves(p, side)[k])) == apply_move(
            p,
            side,
            legal_moves(p, side)[k].0,
            legal_moves(p, side)[k].1,
        ),
{
    let c = legal_moves(p, side)[k];
    let i = c.0;
    let m = c.1;
    let mc = must_capture(p, side);
    law_captures_are_distinct_enemies(p, side);
    lemma_candidates_capture(p, side, 12, mc);
    assert(0 <= i < 12 && piece_moves(p, side, i).contains(m));
    assert(p.piece(i, side).live);
    lemma_kills_match(p, side, m.2, m.2.len() as int);
    assert(m.2.take(m.2.len() as int) =~= m.2);
    let r = kill_side(p, side, m.2);
    lemma_kill_side_distinct(p, side, m.2);
    assert(r.piece(i, side) == p.piece(i, side)) by {
        lemma_kill_all(p.black, m.2);
        lemma_kill_all(p.white, m.2);
    }
    lemma_locate_unique(r, i, side);
    let t = move_tuple(p, side, c);
    assert(kill_located_all(p, t.4) == r);
    assert(play(p, side, t) =~~= apply_move(p, side, i, m));
}

/// The starting position: twelve live men a side on the board, on cells whose
/// column and row add up to an odd number, no two on one cell.
pub proof fn law_initial_position()
    ensures
        forall|side: int, i: int|
            (side == 1 || side == -1) && 0 <= i < 12 ==> (#[trigger] initial_piece(side, i)).live && !initial_piece(side, i).king
                && initial_piece(side, i).x < 8 && initial_piece(side, i).y < 8 && (initial_piece(side, i).x + initial_piece(side, i).y) % 2 == 1,
        forall|s1: int, i1: int, s2: int, i2: int|
            (s1 == 1 || s1 == -1) && (s2 == 1 || s2 == -1) && 0 <= i1 < 12 && 0 <= i2 < 12 && (s1 != s2 || i1 != i2) ==> {
                let a = #[trigger] initial_piece(s1, i1);
                let b = #[trigger] initial_piece(s2, i2);
                a.x != b.x || a.y != b.y
            },
{
}

/// 1 stands for white and -1 for black, and the value tells the colours apart.
pub proof fn law_color_values(a: Color, b: Color)
    ensures
        a.value() == 1 || a.value() == -1,
        a.value() == b.value() <==> a == b,
{
}

} // verus!
