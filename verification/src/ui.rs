use vstd::prelude::*;
use crate::field::{Checker, Field, Position, stands_at, crd_text};
use crate::solve::{
    all_moves, all_moves_spec, color_ok, kills_ok, fresh_kills, lemma_kill_safe, is_enemy, at, on_board, put, grid_ok,
    grid, kill_moves_spec, moves, moves_view, MoveV, capacity, capacity_spec, lemma_material_bounds, WIN_PRICE,
};
use crate::ai::{
    Color, MoveTuple, best_moves_spec, legal_moves, lemma_best_move_origin, moved, next_move, piece_moves,
    captures, capture_upto, must_capture,
};

verus! {

// ---------------------------------------------------------------------------
// Playing a move on the board.

/// `p` with the piece that `locate` finds on column `x`, row `y` taken off.
pub open spec fn kill_located(p: Position, x: int, y: int) -> Position {
    match p.locate(x, y) {
        Some((i, side)) => if side == 1 {
            Position { white: p.white.update(i, Checker { live: false, ..p.white[i] }), black: p.black }
        } else {
            Position { white: p.white, black: p.black.update(i, Checker { live: false, ..p.black[i] }) }
        },
        None => p,
    }
}

/// `p` with the pieces on the cells of `killed` taken off, one after the other.
pub open spec fn kill_located_all(p: Position, killed: Seq<(usize, usize)>) -> Position
    decreases killed.len(),
{
    if killed.len() == 0 {
        p
    } else {
        kill_located(kill_located_all(p, killed.drop_last()), killed.last().0 as int, killed.last().1 as int)
    }
}

/// `p` with the piece that `locate` finds on column `x`, row `y` moved to
/// column `nx`, row `ny` as a piece of side `side` (crowned on its far row).
pub open spec fn move_located(p: Position, x: int, y: int, nx: int, ny: int, side: int) -> Position {
    match p.locate(x, y) {
        Some((i, s)) => if s == 1 {
            Position { white: p.white.update(i, moved(p.white[i], nx, ny, side)), black: p.black }
        } else {
            Position { white: p.white, black: p.black.update(i, moved(p.black[i], nx, ny, side)) }
        },
        None => p,
    }
}

/// The position after side `side` plays move `m` on the board: the captured
/// pieces are taken off one after the other, then the piece on the starting
/// cell moves.
pub open spec fn play(p: Position, side: int, m: MoveTuple) -> Position {
    move_located(kill_located_all(p, m.4), m.0 as int, m.1 as int, m.2 as int, m.3 as int, side)
}

/// Every captured cell holds a piece when its turn comes, and so does the
/// starting cell once they are all taken.
pub open spec fn playable(p: Position, m: MoveTuple) -> bool {
    &&& forall|j: int|
        0 <= j < m.4.len() ==> (#[trigger] kill_located_all(p, m.4.take(j))).locate(m.4[j].0 as int, m.4[j].1 as int) is Some
    &&& kill_located_all(p, m.4).locate(m.0 as int, m.1 as int) is Some
}

/// Plays move (`x`, `y`) -> (`nx`, `ny`) capturing `killed` for side `color`.
fn play_move(fld: &mut Field, color: isize, x: usize, y: usize, nx: usize, ny: usize, killed: &Vec<(usize, usize)>)
    requires
        color_ok(color as int),
        playable(old(fld)@, (x, y, nx, ny, killed@)),
    ensures
        final(fld)@ == play(old(fld)@, color as int, (x, y, nx, ny, killed@)),
{
    for k in 0..killed.len()
        invariant
            playable(old(fld)@, (x, y, nx, ny, killed@)),
            fld@ == kill_located_all(old(fld)@, killed@.take(k as int)),
    {
        let (cx, cy) = killed[k];
        assert(killed@.take(k + 1).drop_last() =~= killed@.take(k as int));
        fld.kill(cx, cy);
        assert(fld@ =~~= kill_located_all(old(fld)@, killed@.take(k + 1)));
    }
    assert(killed@.take(killed@.len() as int) =~= killed@);
    let ghost mid = fld@;
    match fld.get_ch_mut(x, y) {
        Some((ch, _)) => {
            ch.x = nx;
            ch.y = ny;
            if color == 1 && ch.y == 0 {
                ch.king = true;
            } else if color == -1 && ch.y == 7 {
                ch.king = true;
            }
        },
        None => {},
    }
    assert(fld@ =~~= move_located(mid, x as int, y as int, nx as int, ny as int, color as int));
}

proof fn lemma_kill_located_keeps(q: Position, kx: int, ky: int, i: int, side: int, a: int, b: int)
    requires
        q.white.len() == 12,
        q.black.len() == 12,
        0 <= i < 12,
        side == 1 || side == -1,
        stands_at(q.piece(i, side), a, b),
        a != kx || b != ky,
    ensures
        stands_at(kill_located(q, kx, ky).piece(i, side), a, b),
        kill_located(q, kx, ky).white.len() == 12,
        kill_located(q, kx, ky).black.len() == 12,
{
    q.lemma_locate(kx, ky);
}

proof fn lemma_kill_located_occupied(q: Position, kx: int, ky: int, a: int, b: int)
    requires
        q.white.len() == 12,
        q.black.len() == 12,
        q.occupied(a, b),
        a != kx || b != ky,
    ensures
        kill_located(q, kx, ky).occupied(a, b),
{
    let (i, side) = choose|i: int, side: int| 0 <= i < 12 && (side == 1 || side == -1) && #[trigger] stands_at(q.piece(i, side), a, b);
    lemma_kill_located_keeps(q, kx, ky, i, side, a, b);
}

proof fn lemma_kills_prefix(p: Position, killed: Seq<(usize, usize)>, x: int, y: int, i: int, side: int, j: int)
    requires
        0 <= j <= killed.len(),
        p.white.len() == 12,
        p.black.len() == 12,
        0 <= i < 12,
        side == 1 || side == -1,
        stands_at(p.piece(i, side), x, y),
        forall|t: int| 0 <= t < killed.len() ==> p.occupied((#[trigger] killed[t]).0 as int, killed[t].1 as int),
        forall|t: int| 0 <= t < killed.len() ==> ((#[trigger] killed[t]).0 != x || killed[t].1 != y),
        forall|t1: int, t2: int| 0 <= t1 < t2 < killed.len() ==> #[trigger] killed[t1] != #[trigger] killed[t2],
    ensures
        kill_located_all(p, killed.take(j)).white.len() == 12,
        kill_located_all(p, killed.take(j)).black.len() == 12,
        stands_at(kill_located_all(p, killed.take(j)).piece(i, side), x, y),
        forall|t: int| j <= t < killed.len() ==> kill_located_all(p, killed.take(j)).occupied((#[trigger] killed[t]).0 as int, killed[t].1 as int),
    decreases j,
{
    if j == 0 {
        assert(killed.take(0) =~= Seq::<(usize, usize)>::empty());
    } else {
        lemma_kills_prefix(p, killed, x, y, i, side, j - 1);
        let q = kill_located_all(p, killed.take(j - 1));
        assert(killed.take(j).drop_last() =~= killed.take(j - 1));
        assert(killed.take(j).last() == killed[j - 1]);
        let k = killed[j - 1];
        assert(kill_located_all(p, killed.take(j)) == kill_located(q, k.0 as int, k.1 as int));
        lemma_kill_located_keeps(q, k.0 as int, k.1 as int, i, side, x, y);
        assert forall|t: int| j <= t < killed.len() implies kill_located_all(p, killed.take(j)).occupied(
            (#[trigger] killed[t]).0 as int,
            killed[t].1 as int,
        ) by {
            assert(killed[t] != killed[j - 1]);
            lemma_kill_located_occupied(q, k.0 as int, k.1 as int, killed[t].0 as int, killed[t].1 as int);
        }
    }
}

/// A move of a live piece, as generated for it, can be played on the board.
proof fn lemma_moves_playable(p: Position, side: int, i: int, mv: MoveV)
    requires
        p.in_bounds(),
        color_ok(side),
        0 <= i < 12,
        p.piece(i, side).live,
        all_moves_spec(p.board(), p.piece(i, side).x as int, p.piece(i, side).y as int, side, p.piece(i, side).king).contains(mv),
    ensures
        playable(p, (p.piece(i, side).x, p.piece(i, side).y, mv.0, mv.1, mv.2)),
{
    let c = p.piece(i, side);
    let x = c.x as int;
    let y = c.y as int;
    let g = p.board();
    assert(crate::field::checker_in_bounds(p.white_at(i)));
    assert(crate::field::checker_in_bounds(p.black_at(i)));
    assert(grid_ok(g));
    let ms = all_moves_spec(g, x, y, side, c.king);
    let k = choose|k: int| 0 <= k < ms.len() && ms[k] == mv;
    let killed = mv.2;
    let g0 = put(g, x, y, 0);
    if kill_moves_spec(g, x, y, side, c.king, seq![], None).len() > 0 {
        lemma_kill_safe(g, x, y, side, c.king, seq![], None);
        assert(kills_ok(ms, g0, side, seq![]));
        assert(fresh_kills(g0, side, 0, ms[k].2));
    } else {
        assert(ms[k].2 == Seq::<(usize, usize)>::empty());
    }
    assert forall|t: int| 0 <= t < killed.len() implies p.occupied((#[trigger] killed[t]).0 as int, killed[t].1 as int) && (killed[t].0
        != x || killed[t].1 != y) by {
        let kc = killed[t];
        assert(on_board(kc.0 as int, kc.1 as int) && is_enemy(at(g0, kc.0 as int, kc.1 as int), side));
        if kc.0 == x && kc.1 == y {
            assert(at(g0, x, y) == 0);
        }
        assert(at(g0, kc.0 as int, kc.1 as int) == at(g, kc.0 as int, kc.1 as int));
        assert(at(g, kc.0 as int, kc.1 as int) == p.cell(kc.0 as int, kc.1 as int));
        p.lemma_cell_occupied(kc.0 as int, kc.1 as int);
    }
    assert(stands_at(p.piece(i, side), x, y));
    lemma_kills_prefix(p, killed, x, y, i, side, killed.len() as int);
    assert(killed.take(killed.len() as int) =~= killed);
    assert forall|j: int| 0 <= j < killed.len() implies (#[trigger] kill_located_all(p, killed.take(j))).locate(
        killed[j].0 as int,
        killed[j].1 as int,
    ) is Some by {
        lemma_kills_prefix(p, killed, x, y, i, side, j);
        kill_located_all(p, killed.take(j)).lemma_occupied_locate(killed[j].0 as int, killed[j].1 as int);
    }
    let q = kill_located_all(p, killed);
    assert(stands_at(q.piece(i, side), x, y));
    assert(q.occupied(x, y));
    q.lemma_occupied_locate(x, y);
}

pub open spec fn move_view(m: (usize, usize, usize, usize, Box<Vec<(usize, usize)>>)) -> MoveTuple {
    (m.0, m.1, m.2, m.3, m.4@)
}

/// The computer's turn for side `c`: picks a best move (see `next_move`) and
/// plays it. Returns the move played, or `None` when the side has no legal move
/// (the board is then left as it was).
pub fn ai_step(fld: &mut Field, c: Color, depth: usize, heuristic: isize) -> (r: Option<(usize, usize, usize, usize, Box<Vec<(usize, usize)>>)>)
    requires
        old(fld)@.in_bounds(),
    ensures
        r is None <==> legal_moves(old(fld)@, c.value()).len() == 0,
        r is None ==> final(fld)@ == old(fld)@,
        r matches Some(m) ==> best_moves_spec(old(fld)@, c.value(), depth as int, heuristic as int).contains(move_view(m))
            && final(fld)@ == play(old(fld)@, c.value(), move_view(m)),
        final(fld)@.in_bounds(),
{
    let side = c.to_isize();
    let ghost p = fld@;
    match next_move(fld, c, depth, heuristic) {
        Some((x, y, nx, ny, killed)) => {
            proof {
                let t = (x, y, nx, ny, killed@);
                lemma_best_move_origin(p, side as int, depth as int, heuristic as int, t);
                let k = choose|k: int|
                    0 <= k < legal_moves(p, side as int).len() && t == crate::ai::move_tuple(p, side as int, #[trigger] legal_moves(p, side as int)[k])
                        && crate::ai::root_value(p, side as int, depth as int, heuristic as int, legal_moves(p, side as int)[k])
                        == crate::ai::max_root_value(p, side as int, depth as int, heuristic as int)
                        && 0 <= legal_moves(p, side as int)[k].0 < 12 && p.piece(legal_moves(p, side as int)[k].0, side as int).live
                        && piece_moves(p, side as int, legal_moves(p, side as int)[k].0).contains(legal_moves(p, side as int)[k].1);
                let cand = legal_moves(p, side as int)[k];
                lemma_moves_playable(p, side as int, cand.0, cand.1);
                let pc = p.piece(cand.0, side as int);
                crate::solve::lemma_all_moves(p.board(), pc.x as int, pc.y as int, side as int, pc.king);
                crate::laws::law_play_keeps_in_bounds(p, side as int, t);
            }
            play_move(fld, side, x, y, nx, ny, &killed);
            Some((x, y, nx, ny, killed))
        },
        None => None,
    }
}

/// How a game stands for the player of side `color`: the score of the board
/// from that side, and `Some(true)` when it has won (the score is at least
/// `WIN_PRICE`), `Some(false)` when it has lost (at most `-WIN_PRICE`), else `None`.
pub fn game_state(fld: &Field, color: &Color) -> (r: (isize, Option<bool>))
    requires
        fld@.in_bounds(),
    ensures
        r.0 == capacity_spec(fld@) * color.value(),
        r.1 == if r.0 >= WIN_PRICE {
            Some(true)
        } else if r.0 <= -WIN_PRICE {
            Some(false)
        } else {
            None::<bool>
        },
{
    proof { lemma_material_bounds(fld@); }
    let cap = capacity(fld);
    let c = match *color {
        Color::White => cap,
        Color::Black => -cap,
    };
    if c >= WIN_PRICE {
        (c, Some(true))
    } else if c <= -WIN_PRICE {
        (c, Some(false))
    } else {
        (c, None)
    }
}

// ---------------------------------------------------------------------------
// Which pieces may move.

/// The cells (column, row) of the first `n` pieces of side `side` that have a
/// move; when `mc` holds, only of those that capture.
pub open spec fn movable_upto(p: Position, side: int, n: int, mc: bool) -> Seq<(usize, usize)>
    decreases n,
{
    if n <= 0 {
        seq![]
    } else {
        let ms = piece_moves(p, side, n - 1);
        let c = p.piece(n - 1, side);
        movable_upto(p, side, n - 1, mc) + if ms.len() > 0 && (!mc || captures(ms)) {
            seq![(c.x, c.y)]
        } else {
            seq![]
        }
    }
}

proof fn lemma_no_capture_movable(p: Position, side: int, n: int)
    requires
        !capture_upto(p, side, n),
    ensures
        movable_upto(p, side, n, true) == Seq::<(usize, usize)>::empty(),
    decreases n,
{
    if n > 0 {
        assert(!captures(piece_moves(p, side, n - 1)));
        assert(!capture_upto(p, side, n - 1));
        lemma_no_capture_movable(p, side, n - 1);
        assert(movable_upto(p, side, n, true) =~= Seq::<(usize, usize)>::empty());
    }
}

/// The cells (column, row) of the pieces of side `color` that may move: those
/// that can capture when any can, else all that have a move.
pub fn available_chess(f: &Field, color: Color) -> (res: Vec<(usize, usize)>)
    requires
        f@.in_bounds(),
    ensures
        res@ == movable_upto(f@, color.value(), 12, must_capture(f@, color.value())),
{
    let ghost p = f@;
    let side_v = color.to_isize();
    let ghost side = side_v as int;
    let cache = f.cache_field();
    let mut exist_kills = false;
    let mut res: Vec<(usize, usize)> = Vec::new();
    for i in 0..12
        invariant
            p == f@,
            side == side_v,
            color_ok(side),
            p.in_bounds(),
            grid(*cache) == p.board(),
            exist_kills == capture_upto(p, side, i as int),
            res@ == movable_upto(p, side, i as int, exist_kills),
    {
        let c = if side_v == 1 {
            f.white[i]
        } else {
            f.black[i]
        };
        assert(c == p.piece(i as int, side));
        let ghost ms = piece_moves(p, side, i as int);
        if c.live {
            assert(c.x < 8 && c.y < 8) by {
                assert(crate::field::checker_in_bounds(p.white_at(i as int)));
                assert(crate::field::checker_in_bounds(p.black_at(i as int)));
            }
            let steps = all_moves(c.x, c.y, side_v, c.king, &cache);
            assert(moves_view(steps@) == ms);
            if steps.len() > 0 {
                let ghost was = exist_kills;
                assert(moves_view(steps@)[0] == (steps@[0].0, steps@[0].1, steps@[0].2@));
                if exist_kills {
                    if steps[0].2.len() > 0 {
                        res.push((c.x, c.y));
                    }
                } else {
                    if steps[0].2.len() == 0 {
                        res.push((c.x, c.y));
                    } else {
                        proof { lemma_no_capture_movable(p, side, i as int); }
                        exist_kills = true;
                        res.clear();
                        res.push((c.x, c.y));
                    }
                }
                assert(capture_upto(p, side, i + 1) == exist_kills) by {
                    if captures(ms) {
                        assert(captures(piece_moves(p, side, i as int)));
                    }
                }
                assert(res@ =~= movable_upto(p, side, i + 1, exist_kills));
            } else {
                assert(!captures(piece_moves(p, side, i as int)));
                assert(capture_upto(p, side, i + 1) == exist_kills);
                assert(res@ =~= movable_upto(p, side, i + 1, exist_kills));
            }
        } else {
            assert(ms == Seq::<MoveV>::empty());
            assert(!captures(piece_moves(p, side, i as int)));
            assert(capture_upto(p, side, i + 1) == exist_kills);
            assert(res@ =~= movable_upto(p, side, i + 1, exist_kills));
        }
    }
    res
}

// ---------------------------------------------------------------------------
// Drawing.

/// The board with the cursor on row `i`, column `j`, `steps` marked and
/// `cross` crossed (see `Field::show_crd`).
pub fn redraw(f: &Field, i: usize, j: usize, grabbed: bool, steps: Option<&Vec<(usize, usize)>>, cross: Option<(usize, usize)>) -> (r: String)
    requires
        f@.in_bounds(),
        i as isize > isize::MIN,
        j as isize > isize::MIN,
    ensures
        r@ == crd_text(
            f@,
            8,
            i as isize as int,
            j as isize as int,
            grabbed,
            match steps {
                Some(v) => v@,
                None => Seq::<(usize, usize)>::empty(),
            },
            cross,
        ),
{
    let def: Vec<(usize, usize)> = Vec::new();
    let ptr = match steps {
        Some(v) => v,
        _ => &def,
    };
    f.show_crd(i, j, grabbed, ptr, cross)
}

/// The destination cells of a list of moves.
pub open spec fn destinations(ms: Seq<MoveV>) -> Seq<(usize, usize)> {
    ms.map_values(|m: MoveV| (m.0, m.1))
}

/// The board with the cursor on the piece grabbed on row `i`, column `j` and
/// its destinations marked.
pub fn redraw_from(f: &Field, i: usize, j: usize, cross: Option<(usize, usize)>) -> (r: String)
    requires
        f@.in_bounds(),
        f@.locate(j as int, i as int) is Some,
        i < 8,
        j < 8,
    ensures
        r@ == crd_text(
            f@,
            8,
            i as int,
            j as int,
            true,
            destinations(user_moves(f@, j as int, i as int)),
            cross,
        ),
{
    let mut steps: Vec<(usize, usize)> = Vec::new();
    proof { f@.lemma_locate(j as int, i as int); }
    let (ptr, _) = f.get_ch(j, i).unwrap();
    assert(ptr.x == j && ptr.y == i);
    let mv = moves(ptr, f);
    for k in 0..mv.len()
        invariant
            steps@ == destinations(moves_view(mv@)).take(k as int),
    {
        let (x, y) = (mv[k].0, mv[k].1);
        steps.push((x, y));
        assert(steps@ =~= destinations(moves_view(mv@)).take(k + 1));
    }
    assert(destinations(moves_view(mv@)).take(mv@.len() as int) =~= destinations(moves_view(mv@)));
    redraw(f, i, j, true, Some(&steps), cross)
}

/// The moves of the piece on column `x`, row `y` (see `moves`).
pub open spec fn user_moves(p: Position, x: int, y: int) -> Seq<MoveV> {
    let (i, side) = p.locate(x, y)->0;
    all_moves_spec(p.board(), x, y, side, p.piece(i, side).king)
}

// ---------------------------------------------------------------------------
// The player's turn, one input line at a time.

/// What a turn of the player reports.
#[derive(Debug, PartialEq, Eq, Structural)]
pub enum UiMessage {
    /// The space key on a cell that cannot be chosen.
    BadCell,
    /// A key that is not understood (or a cursor key at the edge).
    BadCommand,
    /// The grabbed piece moved from (column, row) to (column, row).
    Moved(usize, usize, usize, usize),
    /// The piece on (column, row) was captured.
    Killed(usize, usize),
}

/// The cursor (row `i`, column `j`) after key `c`: `w`/`s` move it up/down,
/// `a`/`d` left/right, within the board; `None` for any other key.
pub open spec fn cursor_key(c: char, i: usize, j: usize) -> Option<(usize, usize)> {
    if c == 'w' && i > 0 {
        Some(((i - 1) as usize, j))
    } else if c == 's' && i < 7 {
        Some(((i + 1) as usize, j))
    } else if c == 'a' && j > 0 {
        Some((i, (j - 1) as usize))
    } else if c == 'd' && j < 7 {
        Some((i, (j + 1) as usize))
    } else {
        None
    }
}

/// Choosing a piece: the keys of `line` from index `k` on, with the cursor on
/// row `i`, column `j`. The space key chooses the piece under the cursor when
/// it is one of `avail`. Gives the cursor, whether a piece was chosen (the
/// rest of the line is then ignored), and the messages.
pub open spec fn select_run(p: Position, avail: Seq<(usize, usize)>, i: usize, j: usize, line: Seq<char>, k: int) -> (usize, usize, bool, Seq<UiMessage>)
    decreases line.len() - k,
{
    if k < 0 || k >= line.len() {
        (i, j, false, seq![])
    } else {
        let c = line[k];
        if c == '\n' {
            select_run(p, avail, i, j, line, k + 1)
        } else if let Some((i2, j2)) = cursor_key(c, i, j) {
            select_run(p, avail, i2, j2, line, k + 1)
        } else if c == ' ' {
            if p.locate(j as int, i as int) is Some && avail.contains((j, i)) {
                (i, j, true, seq![])
            } else {
                let r = select_run(p, avail, i, j, line, k + 1);
                (r.0, r.1, r.2, seq![UiMessage::BadCell] + r.3)
            }
        } else {
            let r = select_run(p, avail, i, j, line, k + 1);
            (r.0, r.1, r.2, seq![UiMessage::BadCommand] + r.3)
        }
    }
}

/// The cursor after key `c`, as `cursor_key`.
fn cursor_move(c: char, i: usize, j: usize) -> (r: Option<(usize, usize)>)
    ensures
        r == cursor_key(c, i, j),
{
    if c == 'w' && i > 0 {
        Some((i - 1, j))
    } else if c == 's' && i < 7 {
        Some((i + 1, j))
    } else if c == 'a' && j > 0 {
        Some((i, j - 1))
    } else if c == 'd' && j < 7 {
        Some((i, j + 1))
    } else {
        None
    }
}

/// A piece is chosen only on a cell that holds a piece and is one of those
/// offered (`avail`); otherwise no piece is chosen.
pub proof fn law_select_only_offered(p: Position, avail: Seq<(usize, usize)>, i: usize, j: usize, line: Seq<char>, k: int)
    ensures
        ({
            let r = select_run(p, avail, i, j, line, k);
            r.2 ==> avail.contains((r.1, r.0)) && p.locate(r.1 as int, r.0 as int) is Some
        }),
    decreases line.len() - k,
{
    if !(k < 0 || k >= line.len()) {
        let c = line[k];
        if c == '\n' {
            law_select_only_offered(p, avail, i, j, line, k + 1);
        } else if let Some((i2, j2)) = cursor_key(c, i, j) {
            law_select_only_offered(p, avail, i2, j2, line, k + 1);
        } else {
            law_select_only_offered(p, avail, i, j, line, k + 1);
        }
    }
}

/// One input line while the player chooses a piece (see `select_run`).
pub fn select_line(f: &Field, available: &Vec<(usize, usize)>, i: usize, j: usize, line: &Vec<char>) -> (r: (usize, usize, bool, Vec<UiMessage>))
    ensures
        (r.0, r.1, r.2, r.3@) == select_run(f@, available@, i, j, line@, 0),
        r.2 ==> available@.contains((r.1, r.0)) && f@.locate(r.1 as int, r.0 as int) is Some,
{
    proof { law_select_only_offered(f@, available@, i, j, line@, 0); }
    let ghost target = select_run(f@, available@, i, j, line@, 0);
    let mut ci = i;
    let mut cj = j;
    let mut msgs: Vec<UiMessage> = Vec::new();
    for k in 0..line.len()
        invariant
            target == select_run(f@, available@, i, j, line@, 0),
            ({
                let r = select_run(f@, available@, ci, cj, line@, k as int);
                (r.0, r.1, r.2, msgs@ + r.3) == target
            }),
    {
        let c = line[k];
        if c == '\n' {
        } else if let Some((i2, j2)) = cursor_move(c, ci, cj) {
            ci = i2;
            cj = j2;
        } else if c == ' ' {
            let mut found = false;
            match f.get_ch(cj, ci) {
                Some(_) => {
                    for t in 0..available.len()
                        invariant
                            found <==> exists|u: int| 0 <= u < t && available@[u] == (cj, ci),
                    {
                        let (x, y) = available[t];
                        if x == cj && y == ci {
                            found = true;
                        }
                    }
                },
                None => {},
            }
            assert(found <==> (f@.locate(cj as int, ci as int) is Some && available@.contains((cj, ci))));
            if found {
                assert(cursor_key(c, ci, cj) is None);
                assert(select_run(f@, available@, ci, cj, line@, k as int) == (ci, cj, true, Seq::<UiMessage>::empty()));
                assert(msgs@ + Seq::<UiMessage>::empty() =~= msgs@);
                return (ci, cj, true, msgs);
            }
            let ghost before = msgs@;
            msgs.push(UiMessage::BadCell);
            assert(msgs@ + select_run(f@, available@, ci, cj, line@, k + 1).3 =~= before + (seq![UiMessage::BadCell] + select_run(f@, available@, ci, cj, line@, k + 1).3));
        } else {
            let ghost before = msgs@;
            msgs.push(UiMessage::BadCommand);
            assert(msgs@ + select_run(f@, available@, ci, cj, line@, k + 1).3 =~= before + (seq![UiMessage::BadCommand] + select_run(f@, available@, ci, cj, line@, k + 1).3));
        }
    }
    assert(msgs@ + seq![] =~= msgs@);
    (ci, cj, false, msgs)
}

/// The first of the moves `steps` that ends on column `j`, row `i`.
pub open spec fn first_step_to(steps: Seq<MoveV>, j: int, i: int, n: int) -> Option<int>
    decreases steps.len() - n,
{
    if n < 0 || n >= steps.len() {
        None
    } else if steps[n].0 == j && steps[n].1 == i {
        Some(n)
    } else {
        first_step_to(steps, j, i, n + 1)
    }
}

/// Moving the grabbed piece (on row `gi`, column `gj`), whose moves are
/// `steps`: the keys of `line` from index `k` on, with the cursor on row `i`,
/// column `j`. The space key on a destination plays the first move that ends
/// there (the rest of the line is then ignored). Gives the cursor, the index of
/// the move played, and the messages.
pub open spec fn move_run(steps: Seq<MoveV>, gi: usize, gj: usize, i: usize, j: usize, line: Seq<char>, k: int) -> (usize, usize, Option<int>, Seq<UiMessage>)
    decreases line.len() - k,
{
    if k < 0 || k >= line.len() {
        (i, j, None, seq![])
    } else {
        let c = line[k];
        if c == '\n' {
            move_run(steps, gi, gj, i, j, line, k + 1)
        } else if let Some((i2, j2)) = cursor_key(c, i, j) {
            move_run(steps, gi, gj, i2, j2, line, k + 1)
        } else if c == ' ' {
            match first_step_to(steps, j as int, i as int, 0) {
                Some(n) => (i, j, Some(n), seq![UiMessage::Moved(gj, gi, j, i)] + steps[n].2.map_values(|c: (usize, usize)| UiMessage::Killed(c.0, c.1))),
                None => {
                    let r = move_run(steps, gi, gj, i, j, line, k + 1);
                    (r.0, r.1, r.2, seq![UiMessage::BadCell] + r.3)
                },
            }
        } else {
            let r = move_run(steps, gi, gj, i, j, line, k + 1);
            (r.0, r.1, r.2, seq![UiMessage::BadCommand] + r.3)
        }
    }
}

/// The moves of the piece grabbed on row `i`, column `j`.
pub fn user_grab(f: &Field, i: usize, j: usize) -> (r: Vec<(usize, usize, Box<Vec<(usize, usize)>>)>)
    requires
        f@.in_bounds(),
        f@.locate(j as int, i as int) is Some,
    ensures
        moves_view(r@) == user_moves(f@, j as int, i as int),
{
    proof { f@.lemma_locate(j as int, i as int); }
    let (ptr, _) = f.get_ch(j, i).unwrap();
    moves(ptr, f)
}

proof fn lemma_first_step_to(steps: Seq<MoveV>, j: int, i: int, n: int)
    requires
        0 <= n,
    ensures
        first_step_to(steps, j, i, n) matches Some(t) ==> n <= t < steps.len() && steps[t].0 == j && steps[t].1 == i,
        first_step_to(steps, j, i, n) is None ==> forall|t: int| n <= t < steps.len() ==> !(#[trigger] steps[t].0 == j && steps[t].1 == i),
    decreases steps.len() - n,
{
    if 0 <= n < steps.len() && !(steps[n].0 == j && steps[n].1 == i) {
        lemma_first_step_to(steps, j, i, n + 1);
    }
}

proof fn lemma_first_step_first(steps: Seq<MoveV>, j: int, i: int, n: int)
    requires
        0 <= n,
    ensures
        first_step_to(steps, j, i, n) matches Some(t) ==> forall|u: int| n <= u < t ==> !(#[trigger] steps[u].0 == j && steps[u].1 == i),
    decreases steps.len() - n,
{
    if 0 <= n < steps.len() && !(steps[n].0 == j && steps[n].1 == i) {
        lemma_first_step_first(steps, j, i, n + 1);
    }
}

/// The grabbed piece moves only along one of its own moves, and only to the
/// cell under the cursor: when a move is played it is one of `steps`, ending on
/// the final cursor cell, and the first such one.
pub proof fn law_move_only_to_destination(steps: Seq<MoveV>, gi: usize, gj: usize, i: usize, j: usize, line: Seq<char>, k: int)
    ensures
        ({
            let r = move_run(steps, gi, gj, i, j, line, k);
            r.2 matches Some(n) ==> 0 <= n < steps.len() && steps[n].0 == r.1 && steps[n].1 == r.0 && forall|t: int|
                0 <= t < n ==> !(#[trigger] steps[t].0 == r.1 && steps[t].1 == r.0)
        }),
    decreases line.len() - k,
{
    if !(k < 0 || k >= line.len()) {
        let c = line[k];
        if c == '\n' {
            law_move_only_to_destination(steps, gi, gj, i, j, line, k + 1);
        } else if let Some((i2, j2)) = cursor_key(c, i, j) {
            law_move_only_to_destination(steps, gi, gj, i2, j2, line, k + 1);
        } else if c == ' ' {
            lemma_first_step_to(steps, j as int, i as int, 0);
            lemma_first_step_first(steps, j as int, i as int, 0);
            law_move_only_to_destination(steps, gi, gj, i, j, line, k + 1);
        } else {
            law_move_only_to_destination(steps, gi, gj, i, j, line, k + 1);
        }
    }
}

/// One input line while the player moves the grabbed piece of side `color`
/// (see `move_run`); the move played is made on the board (see `play`).
pub fn move_line(
    f: &mut Field,
    color: &Color,
    grab_i: usize,
    grab_j: usize,
    steps: &Vec<(usize, usize, Box<Vec<(usize, usize)>>)>,
    i: usize,
    j: usize,
    line: &Vec<char>,
) -> (r: (usize, usize, bool, Vec<UiMessage>))
    requires
        old(f)@.in_bounds(),
        old(f)@.locate(grab_j as int, grab_i as int) is Some,
        moves_view(steps@) == user_moves(old(f)@, grab_j as int, grab_i as int),
    ensures
        ({
            let s = move_run(moves_view(steps@), grab_i, grab_j, i, j, line@, 0);
            &&& (r.0, r.1, r.3@) == (s.0, s.1, s.3)
            &&& r.2 == s.2 is Some
            &&& match s.2 {
                Some(n) => final(f)@ == play(old(f)@, color.value(), (grab_j, grab_i, r.1, r.0, moves_view(steps@)[n].2)),
                None => final(f)@ == old(f)@,
            }
        }),
        final(f)@.in_bounds(),
{
    let ghost sv = moves_view(steps@);
    let ghost p = f@;
    let ghost target = move_run(sv, grab_i, grab_j, i, j, line@, 0);
    let mut ci = i;
    let mut cj = j;
    let mut msgs: Vec<UiMessage> = Vec::new();
    for k in 0..line.len()
        invariant
            target == move_run(sv, grab_i, grab_j, i, j, line@, 0),
            p == old(f)@,
            f@ == p,
            sv == moves_view(steps@),
            p.in_bounds(),
            p.locate(grab_j as int, grab_i as int) is Some,
            sv == user_moves(p, grab_j as int, grab_i as int),
            ({
                let r = move_run(sv, grab_i, grab_j, ci, cj, line@, k as int);
                (r.0, r.1, r.2, msgs@ + r.3) == target
            }),
    {
        let c = line[k];
        if c == '\n' {
        } else if let Some((i2, j2)) = cursor_move(c, ci, cj) {
            ci = i2;
            cj = j2;
        } else if c == ' ' {
            proof { lemma_first_step_to(sv, cj as int, ci as int, 0); }
            for n in 0..steps.len()
                invariant
                    f@ == p,
                    sv == moves_view(steps@),
                    p.in_bounds(),
                    p.locate(grab_j as int, grab_i as int) is Some,
                    sv == user_moves(p, grab_j as int, grab_i as int),
                    target == move_run(sv, grab_i, grab_j, i, j, line@, 0),
                    p == old(f)@,
                    k < line@.len(),
                    c == line@[k as int],
                    c == ' ',
                    cursor_key(c, ci, cj) is None,
                    first_step_to(sv, cj as int, ci as int, 0) == first_step_to(sv, cj as int, ci as int, n as int),
                    ({
                        let r = move_run(sv, grab_i, grab_j, ci, cj, line@, k as int);
                        (r.0, r.1, r.2, msgs@ + r.3) == target
                    }),
            {
                assert(sv[n as int] == (steps@[n as int].0, steps@[n as int].1, steps@[n as int].2@));
                if ci == steps[n].1 && cj == steps[n].0 {
                    let ghost before = msgs@;
                    msgs.push(UiMessage::Moved(grab_j, grab_i, cj, ci));
                    let killed = &steps[n].2;
                    for t in 0..killed.len()
                        invariant
                            msgs@ == before.push(UiMessage::Moved(grab_j, grab_i, cj, ci)) + killed@.take(t as int).map_values(|c: (usize, usize)| UiMessage::Killed(c.0, c.1)),
                    {
                        let (x, y) = killed[t];
                        msgs.push(UiMessage::Killed(x, y));
                        assert(killed@.take(t + 1).map_values(|c: (usize, usize)| UiMessage::Killed(c.0, c.1)) =~= killed@.take(t as int).map_values(|c: (usize, usize)| UiMessage::Killed(c.0, c.1)).push(UiMessage::Killed(x, y)));
                    }
                    assert(killed@.take(killed@.len() as int) =~= killed@);
                    assert(msgs@ =~= before + (seq![UiMessage::Moved(grab_j, grab_i, cj, ci)] + sv[n as int].2.map_values(|c: (usize, usize)| UiMessage::Killed(c.0, c.1))));
                    proof {
                        p.lemma_locate(grab_j as int, grab_i as int);
                        let (pi, pside) = p.locate(grab_j as int, grab_i as int)->0;
                        assert(sv.contains(sv[n as int]));
                        lemma_moves_playable(p, pside, pi, sv[n as int]);
                        crate::solve::lemma_all_moves(p.board(), grab_j as int, grab_i as int, pside, p.piece(pi, pside).king);
                        crate::laws::law_play_keeps_in_bounds(p, color.value(), (grab_j, grab_i, cj, ci, sv[n as int].2));
                    }
                    assert(first_step_to(sv, cj as int, ci as int, n as int) == Some(n as int));
                    assert(cursor_key(c, ci, cj) is None);
                    assert(move_run(sv, grab_i, grab_j, ci, cj, line@, k as int) == (ci, cj, Some(n as int), seq![UiMessage::Moved(grab_j, grab_i, cj, ci)] + sv[n as int].2.map_values(|c: (usize, usize)| UiMessage::Killed(c.0, c.1))));
                    let side = color.to_isize();
                    play_move(f, side, grab_j, grab_i, cj, ci, killed);
                    return (ci, cj, true, msgs);
                }
            }
            let ghost before = msgs@;
            msgs.push(UiMessage::BadCell);
            assert(msgs@ + move_run(sv, grab_i, grab_j, ci, cj, line@, k + 1).3 =~= before + (seq![UiMessage::BadCell] + move_run(sv, grab_i, grab_j, ci, cj, line@, k + 1).3));
        } else {
            let ghost before = msgs@;
            msgs.push(UiMessage::BadCommand);
            assert(msgs@ + move_run(sv, grab_i, grab_j, ci, cj, line@, k + 1).3 =~= before + (seq![UiMessage::BadCommand] + move_run(sv, grab_i, grab_j, ci, cj, line@, k + 1).3));
        }
    }
    assert(msgs@ + seq![] =~= msgs@);
    (ci, cj, false, msgs)
}

} // verus!
