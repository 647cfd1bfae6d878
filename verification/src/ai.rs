use vstd::prelude::*;
use crate::field::{Checker, Field, Position, stands_at, checker_in_bounds};
use crate::solve::{
    all_moves, all_moves_spec, capacity, capacity_spec, color_ok, copy_path, lemma_all_moves,
    lemma_material_bounds, moves_view, on_board, grid, MoveV, WIN_PRICE,
};

verus! {

/// The side to move.
#[derive(Clone, Debug)]
pub enum Color {
    White,
    Black,
}

impl Color {
    /// 1 for white, -1 for black.
    pub open spec fn value(self) -> int {
        match self {
            Color::White => 1,
            Color::Black => -1,
        }
    }

    pub fn to_isize(&self) -> (r: isize)
        ensures
            r == self.value(),
    {
        match *self {
            Color::White => 1,
            _ => -1,
        }
    }

    pub fn from_isize(i: isize) -> (r: Option<Color>)
        ensures
            i == 1 ==> r == Some(Color::White),
            i == -1 ==> r == Some(Color::Black),
            i != 1 && i != -1 ==> r is None,
    {
        match i {
            1 => Some(Color::White),
            -1 => Some(Color::Black),
            _ => None,
        }
    }

    /// The other side.
    pub fn neg(&self) -> (r: Color)
        ensures
            r.value() == -self.value(),
            r != *self,
    {
        match *self {
            Color::White => Color::Black,
            _ => Color::White,
        }
    }
}

// ---------------------------------------------------------------------------
// Making a move.

/// `s` with the first live piece on column `x`, row `y` (from index `i` on) taken off.
pub open spec fn kill_first_from(s: Seq<Checker>, x: int, y: int, i: int) -> Seq<Checker>
    decreases s.len() - i,
{
    if i < 0 || i >= s.len() {
        s
    } else if stands_at(s[i], x, y) {
        s.update(i, Checker { live: false, ..s[i] })
    } else {
        kill_first_from(s, x, y, i + 1)
    }
}

/// `s` with the pieces on the cells of `killed` taken off, one cell after the other.
pub open spec fn kill_all(s: Seq<Checker>, killed: Seq<(usize, usize)>) -> Seq<Checker>
    decreases killed.len(),
{
    if killed.len() == 0 {
        s
    } else {
        kill_first_from(kill_all(s, killed.drop_last()), killed.last().0 as int, killed.last().1 as int, 0)
    }
}

/// Piece `c` of side `side` moved to column `nx`, row `ny`; a man that reaches
/// the far row (row 0 for white, row 7 for black) becomes a king.
pub open spec fn moved(c: Checker, nx: int, ny: int, side: int) -> Checker {
    Checker {
        x: nx as usize,
        y: ny as usize,
        king: if (side == 1 && ny == 0) || (side == -1 && ny == 7) {
            true
        } else {
            c.king
        },
        live: c.live,
    }
}

/// The position after piece `i` of side `side` makes move `m`.
pub open spec fn apply_move(p: Position, side: int, i: int, m: MoveV) -> Position {
    if side == 1 {
        Position { white: p.white.update(i, moved(p.white[i], m.0 as int, m.1 as int, 1)), black: kill_all(p.black, m.2) }
    } else {
        Position { white: kill_all(p.white, m.2), black: p.black.update(i, moved(p.black[i], m.0 as int, m.1 as int, -1)) }
    }
}

/// The piece that moves lands on the move's destination and stays live; it is
/// a king afterwards exactly when it was one before or it lands on its crowning
/// row (row 0 for white, row 7 for black). The other pieces of its side are
/// left as they were.
pub proof fn law_moved_piece_crowning(p: Position, side: int, i: int, m: MoveV)
    requires
        p.in_bounds(),
        side == 1 || side == -1,
        0 <= i < 12,
    ensures
        apply_move(p, side, i, m).piece(i, side).x == m.0,
        apply_move(p, side, i, m).piece(i, side).y == m.1,
        apply_move(p, side, i, m).piece(i, side).live == p.piece(i, side).live,
        apply_move(p, side, i, m).piece(i, side).king <==> (p.piece(i, side).king || (side == 1 && m.1 == 0) || (side == -1
            && m.1 == 7)),
        forall|j: int| 0 <= j < 12 && j != i ==> #[trigger] apply_move(p, side, i, m).piece(j, side) == p.piece(j, side),
{
}

proof fn lemma_kill_first_from(s: Seq<Checker>, x: int, y: int, i: int)
    ensures
        kill_first_from(s, x, y, i).len() == s.len(),
        forall|j: int| 0 <= j < s.len() ==> {
            let t = #[trigger] kill_first_from(s, x, y, i)[j];
            t.x == s[j].x && t.y == s[j].y && t.king == s[j].king && (t.live ==> s[j].live)
        },
    decreases s.len() - i,
{
    if !(i < 0 || i >= s.len()) && !stands_at(s[i], x, y) {
        lemma_kill_first_from(s, x, y, i + 1);
    }
}

pub(crate) proof fn lemma_kill_all(s: Seq<Checker>, killed: Seq<(usize, usize)>)
    ensures
        kill_all(s, killed).len() == s.len(),
        forall|j: int| 0 <= j < s.len() ==> {
            let t = #[trigger] kill_all(s, killed)[j];
            t.x == s[j].x && t.y == s[j].y && t.king == s[j].king && (t.live ==> s[j].live)
        },
    decreases killed.len(),
{
    if killed.len() > 0 {
        lemma_kill_all(s, killed.drop_last());
        let s1 = kill_all(s, killed.drop_last());
        lemma_kill_first_from(s1, killed.last().0 as int, killed.last().1 as int, 0);
        assert forall|j: int| 0 <= j < s.len() implies {
            let t = #[trigger] kill_all(s, killed)[j];
            t.x == s[j].x && t.y == s[j].y && t.king == s[j].king && (t.live ==> s[j].live)
        } by {
            assert(kill_all(s, killed)[j] == kill_first_from(s1, killed.last().0 as int, killed.last().1 as int, 0)[j]);
            assert(s1[j].x == s[j].x);
        }
    }
}

/// A move that ends on the board keeps every live piece on the board.
proof fn lemma_apply_in_bounds(p: Position, side: int, i: int, m: MoveV)
    requires
        p.in_bounds(),
        color_ok(side),
        0 <= i < 12,
        on_board(m.0 as int, m.1 as int),
    ensures
        apply_move(p, side, i, m).in_bounds(),
{
    lemma_kill_all(p.white, m.2);
    lemma_kill_all(p.black, m.2);
    let q = apply_move(p, side, i, m);
    assert forall|j: int| 0 <= j < 12 implies checker_in_bounds(#[trigger] q.white_at(j)) by {
        assert(checker_in_bounds(p.white_at(j)));
    }
    assert forall|j: int| 0 <= j < 12 implies checker_in_bounds(#[trigger] q.black_at(j)) by {
        assert(checker_in_bounds(p.black_at(j)));
    }
}

/// Takes off the first live piece on column `cx`, row `cy`, if there is one.
fn kill_first(arr: &mut [Checker; 12], cx: usize, cy: usize)
    ensures
        final(arr)@ == kill_first_from(old(arr)@, cx as int, cy as int, 0),
{
    for i in 0..12
        invariant
            *arr == *old(arr),
            kill_first_from(arr@, cx as int, cy as int, 0) == kill_first_from(arr@, cx as int, cy as int, i as int),
    {
        if arr[i].live && arr[i].x == cx && arr[i].y == cy {
            let mut c = arr[i];
            c.live = false;
            arr[i] = c;
            assert(arr@ =~= kill_first_from(old(arr)@, cx as int, cy as int, i as int));
            return;
        }
    }
}

/// Takes off the pieces on the cells of `killed`, one cell after the other.
fn kill_cells(arr: &mut [Checker; 12], killed: &Vec<(usize, usize)>)
    ensures
        final(arr)@ == kill_all(old(arr)@, killed@),
{
    for k in 0..killed.len()
        invariant
            arr@ == kill_all(old(arr)@, killed@.subrange(0, k as int)),
    {
        let (cx, cy) = killed[k];
        kill_first(arr, cx, cy);
        assert(killed@.subrange(0, k + 1).drop_last() =~= killed@.subrange(0, k as int));
    }
    assert(killed@.subrange(0, killed@.len() as int) =~= killed@);
}

/// Moves piece `i` of side `color` to column `nx`, row `ny`, crowns it on the
/// far row, and takes off the captured pieces.
fn apply_step(fld: &mut Field, color: isize, i: usize, nx: usize, ny: usize, killed: &Vec<(usize, usize)>)
    requires
        color_ok(color as int),
        i < 12,
    ensures
        final(fld)@ == apply_move(old(fld)@, color as int, i as int, (nx, ny, killed@)),
{
    if color == 1 {
        let mut c = fld.white[i];
        c.x = nx;
        c.y = ny;
        if c.y == 0 {
            c.king = true;
        }
        fld.white[i] = c;
        kill_cells(&mut *fld.black, killed);
    } else {
        let mut c = fld.black[i];
        c.x = nx;
        c.y = ny;
        if c.y == 7 {
            c.king = true;
        }
        fld.black[i] = c;
        kill_cells(&mut *fld.white, killed);
    }
    assert(final(fld)@.white =~= apply_move(old(fld)@, color as int, i as int, (nx, ny, killed@)).white);
    assert(final(fld)@.black =~= apply_move(old(fld)@, color as int, i as int, (nx, ny, killed@)).black);
}

// ---------------------------------------------------------------------------
// The moves a side may make.

/// The moves of piece `i` of side `side` (none when it is off the board).
pub open spec fn piece_moves(p: Position, side: int, i: int) -> Seq<MoveV> {
    let c = p.piece(i, side);
    if c.live {
        all_moves_spec(p.board(), c.x as int, c.y as int, side, c.king)
    } else {
        seq![]
    }
}

/// A list of moves whose first move captures (then all of them do).
pub open spec fn captures(ms: Seq<MoveV>) -> bool {
    ms.len() > 0 && ms[0].2.len() > 0
}

/// Some piece among the first `n` of side `side` can capture.
pub open spec fn capture_upto(p: Position, side: int, n: int) -> bool {
    exists|i: int| 0 <= i < n && #[trigger] captures(piece_moves(p, side, i))
}

/// Some piece of side `side` can capture; then it must.
pub open spec fn must_capture(p: Position, side: int) -> bool {
    capture_upto(p, side, 12)
}

/// The moves of the first `n` pieces, each tagged with its piece's index; when
/// `mc` holds, only those of pieces that capture.
pub open spec fn candidates_upto(p: Position, side: int, n: int, mc: bool) -> Seq<(int, MoveV)>
    decreases n,
{
    if n <= 0 {
        seq![]
    } else {
        let ms = piece_moves(p, side, n - 1);
        candidates_upto(p, side, n - 1, mc) + if !mc || captures(ms) {
            ms.map_values(|m: MoveV| (n - 1, m))
        } else {
            seq![]
        }
    }
}

/// The legal moves of side `side`, each tagged with the index of the piece
/// that makes it: the captures when some piece can capture, else all moves.
pub open spec fn legal_moves(p: Position, side: int) -> Seq<(int, MoveV)> {
    candidates_upto(p, side, 12, must_capture(p, side))
}

// ---------------------------------------------------------------------------
// The value of a move.

/// The value for side `side` of making candidate move `c` in position `p`,
/// searching `depth` more plies. `mw` and `mb` are the best scores white and
/// black have reached on the way here; a line on which the mover falls more
/// than `heur` below its best is not searched further, nor is one at depth 0
/// or one that decides the game. A searched move is worth minus the best value
/// of the opponent's replies (its own score when there are none).
pub open spec fn node_value(p: Position, side: int, depth: int, heur: int, mw: int, mb: int, c: (int, MoveV)) -> int
    decreases depth, 0int, 0int,
{
    let q = apply_move(p, side, c.0, c.1);
    let cap = capacity_spec(q) * side;
    let max_cap = if side == 1 {
        mw
    } else {
        mb
    };
    if max_cap - cap > heur || depth < 1 || cap >= WIN_PRICE || cap <= -WIN_PRICE {
        cap
    } else {
        let nm = if cap > max_cap {
            cap
        } else {
            max_cap
        };
        let kids = legal_moves(q, -side);
        if kids.len() == 0 {
            cap
        } else {
            -best_value(
                q,
                -side,
                depth - 1,
                heur,
                if side == 1 {
                    nm
                } else {
                    mw
                },
                if side == 1 {
                    mb
                } else {
                    nm
                },
                kids,
                kids.len() as int,
            )
        }
    }
}

/// The greatest value among the first `n` candidates (`n >= 1`).
pub open spec fn best_value(p: Position, side: int, depth: int, heur: int, mw: int, mb: int, cs: Seq<(int, MoveV)>, n: int) -> int
    decreases depth, 1int, n,
{
    if n <= 1 {
        node_value(p, side, depth, heur, mw, mb, cs[0])
    } else {
        let a = best_value(p, side, depth, heur, mw, mb, cs, n - 1);
        let b = node_value(p, side, depth, heur, mw, mb, cs[n - 1]);
        if b > a {
            b
        } else {
            a
        }
    }
}

// ---------------------------------------------------------------------------
// The search tree.

/// A searched move: where the piece came from and went, what it captured, the
/// position it produced, its score, and the searched replies.
pub struct TNode {
    pub x: usize,
    pub y: usize,
    pub nx: usize,
    pub ny: usize,
    pub killed: Box<Vec<(usize, usize)>>,
    pub data: Field,
    pub self_cap: isize,
    pub max_on_way: Option<(isize, usize)>,
    pub step_color: isize,
    pub childs: Vec<Step>,
}

pub type Step = Box<TNode>;

impl TNode {
    /// The recorded best reply is one of the replies.
    pub open spec fn wf(&self) -> bool {
        self.max_on_way matches Some((_, i)) ==> i < self.childs.len()
    }

    /// The value of this move for the side that made it.
    pub open spec fn value(&self) -> int {
        match self.max_on_way {
            Some((a, _)) => a as int,
            None => self.self_cap as int,
        }
    }

    /// The opponent's best reply, when replies were searched.
    pub open spec fn best_reply(&self) -> Option<TNode> {
        match self.max_on_way {
            Some((_, i)) => Some(*self.childs@[i as int]),
            None => None,
        }
    }

    pub open spec fn from_cell(&self) -> (usize, usize) {
        (self.x, self.y)
    }

    pub open spec fn to_cell(&self) -> (usize, usize) {
        (self.nx, self.ny)
    }

    pub open spec fn captured(&self) -> Seq<(usize, usize)> {
        self.killed@
    }

    /// This node is the search of candidate `c` of side `side` in position `p`.
    pub open spec fn searched(&self, p: Position, side: int, depth: int, heur: int, mw: int, mb: int, c: (int, MoveV)) -> bool {
        &&& self.wf()
        &&& self.value() == node_value(p, side, depth, heur, mw, mb, c)
        &&& -(WIN_PRICE + 1) <= self.value() <= WIN_PRICE + 1
        &&& self.x == p.piece(c.0, side).x
        &&& self.y == p.piece(c.0, side).y
        &&& self.nx == c.1.0
        &&& self.ny == c.1.1
        &&& self.killed@ == c.1.2
    }

    /// The value of this move for the side that made it.
    pub fn max_val(&self) -> (r: isize)
        ensures
            r == self.value(),
    {
        match self.max_on_way {
            Some((a, _)) => a,
            _ => self.self_cap,
        }
    }

    /// The opponent's best reply, when replies were searched.
    pub fn max_child(&self) -> (r: Option<&TNode>)
        requires
            self.wf(),
        ensures
            match self.best_reply() {
                Some(c) => r matches Some(rc) && *rc == c,
                None => r is None,
            },
    {
        match self.max_on_way {
            Some((_, i)) => Some(&*self.childs[i]),
            _ => None,
        }
    }

    /// The cell (column, row) the piece moved from.
    pub fn coords_from(&self) -> (r: (usize, usize))
        ensures
            r == self.from_cell(),
    {
        (self.x, self.y)
    }

    /// The cell (column, row) the piece moved to.
    pub fn coords_to(&self) -> (r: (usize, usize))
        ensures
            r == self.to_cell(),
    {
        (self.nx, self.ny)
    }
}

proof fn lemma_no_capture_candidates(p: Position, side: int, n: int)
    requires
        !capture_upto(p, side, n),
    ensures
        candidates_upto(p, side, n, true) == Seq::<(int, MoveV)>::empty(),
    decreases n,
{
    if n > 0 {
        assert(!captures(piece_moves(p, side, n - 1)));
        assert(!capture_upto(p, side, n - 1));
        lemma_no_capture_candidates(p, side, n - 1);
        assert(candidates_upto(p, side, n, true) =~= Seq::<(int, MoveV)>::empty());
    }
}

/// Searches the move of piece `i` of side `color` (the piece `ch`) to column
/// `nx`, row `ny` capturing `killed` (see `node_value`).
fn search_node(
    fld: &Field,
    color: isize,
    i: usize,
    ch: Checker,
    nx: usize,
    ny: usize,
    killed: Vec<(usize, usize)>,
    depth: usize,
    heuristic_diff: isize,
    max_white: isize,
    max_black: isize,
) -> (node: Step)
    requires
        fld@.in_bounds(),
        color_ok(color as int),
        i < 12,
        ch == fld@.piece(i as int, color as int),
        on_board(nx as int, ny as int),
        -(WIN_PRICE + 1) <= max_white <= WIN_PRICE + 1,
        -(WIN_PRICE + 1) <= max_black <= WIN_PRICE + 1,
    ensures
        node.searched(
            fld@,
            color as int,
            depth as int,
            heuristic_diff as int,
            max_white as int,
            max_black as int,
            (i as int, (nx, ny, killed@)),
        ),
    decreases depth, 0int,
{
    let ghost p = fld@;
    let ghost side = color as int;
    let ghost cand = (i as int, (nx, ny, killed@));
    let mut new_fld = fld.clone();
    apply_step(&mut new_fld, color, i, nx, ny, &killed);
    proof {
        lemma_apply_in_bounds(p, side, i as int, (nx, ny, killed@));
        lemma_material_bounds(new_fld@);
    }
    let cap = capacity(&new_fld) * color;
    let mut max_on_way: Option<isize> = None;
    let mut worst_ch: usize = 0;
    let mut childs: Vec<Step> = Vec::new();
    let max_cap = if color == 1 {
        max_white
    } else {
        max_black
    };
    let ghost q = new_fld@;
    if max_cap - cap > heuristic_diff || depth < 1 || cap >= WIN_PRICE || cap <= -WIN_PRICE {
    } else {
        let max_cap = if cap > max_cap {
            cap
        } else {
            max_cap
        };
        let (w, b) = if color == 1 {
            (max_cap, max_black)
        } else {
            (max_white, max_cap)
        };
        childs = rec_down(&new_fld, -color, depth - 1, heuristic_diff, w, b);
        let ghost kids = legal_moves(q, -side);
        if childs.len() > 0 {
            let mut worst_cap = childs[0].max_val();
            let n_childs = childs.len();
            for j in 0..n_childs
                invariant
                    n_childs == childs.len(),
                    n_childs == kids.len(),
                    n_childs > 0,
                    worst_ch < n_childs,
                    worst_cap == childs@[worst_ch as int].value(),
                    worst_cap == best_value(q, -side, depth - 1, heuristic_diff as int, w as int, b as int, kids, if j == 0 { 1 } else { j as int }),
                    -(WIN_PRICE + 1) <= worst_cap <= WIN_PRICE + 1,
                    forall|t: int|
                        0 <= t < childs.len() ==> (#[trigger] childs@[t]).searched(
                            q,
                            -side,
                            depth - 1,
                            heuristic_diff as int,
                            w as int,
                            b as int,
                            kids[t],
                        ),
            {
                let v = childs[j].max_val();
                if v > worst_cap {
                    worst_ch = j;
                    worst_cap = v;
                }
            }
            max_on_way = Some(-worst_cap);
        }
    }
    let node = Box::new(
        TNode {
            x: ch.x,
            y: ch.y,
            nx: nx,
            ny: ny,
            killed: Box::new(killed),
            data: new_fld,
            self_cap: cap,
            max_on_way: match max_on_way {
                Some(a) => Some((a, worst_ch)),
                _ => None,
            },
            step_color: color,
            childs: childs,
        },
    );
    assert(node.searched(p, side, depth as int, heuristic_diff as int, max_white as int, max_black as int, cand));
    node
}

/// Searches every legal move of side `color` in `fld` (see `node_value`),
/// in the order of `legal_moves`.
fn rec_down(fld: &Field, color: isize, depth: usize, heuristic_diff: isize, max_white: isize, max_black: isize) -> (res: Vec<Step>)
    requires
        fld@.in_bounds(),
        color_ok(color as int),
        -(WIN_PRICE + 1) <= max_white <= WIN_PRICE + 1,
        -(WIN_PRICE + 1) <= max_black <= WIN_PRICE + 1,
    ensures
        res.len() == legal_moves(fld@, color as int).len(),
        forall|k: int|
            0 <= k < res.len() ==> (#[trigger] res@[k]).searched(
                fld@,
                color as int,
                depth as int,
                heuristic_diff as int,
                max_white as int,
                max_black as int,
                legal_moves(fld@, color as int)[k],
            ),
    decreases depth, 1int,
{
    let ghost p = fld@;
    let ghost side = color as int;
    let ghost params = (depth as int, heuristic_diff as int, max_white as int, max_black as int);
    let mut exist_kills = false;
    let mut res: Vec<Step> = Vec::new();
    let cache = fld.cache_field();
    for i in 0..12
        invariant
            p == fld@,
            side == color,
            p.in_bounds(),
            color_ok(side),
            grid(*cache) == p.board(),
            -(WIN_PRICE + 1) <= max_white <= WIN_PRICE + 1,
            -(WIN_PRICE + 1) <= max_black <= WIN_PRICE + 1,
            exist_kills == capture_upto(p, side, i as int),
            res.len() == candidates_upto(p, side, i as int, exist_kills).len(),
            forall|k: int|
                0 <= k < res.len() ==> (#[trigger] res@[k]).searched(
                    p,
                    side,
                    depth as int,
                    heuristic_diff as int,
                    max_white as int,
                    max_black as int,
                    candidates_upto(p, side, i as int, exist_kills)[k],
                ),
    {
        let ch = if color == 1 {
            fld.white[i]
        } else {
            fld.black[i]
        };
        assert(ch == p.piece(i as int, side));
        let ghost before = candidates_upto(p, side, i as int, exist_kills);
        let ghost ms = piece_moves(p, side, i as int);
        if ch.live {
            assert(ch.x < 8 && ch.y < 8) by {
                assert(checker_in_bounds(p.white_at(i as int)));
                assert(checker_in_bounds(p.black_at(i as int)));
            }
            let mut steps = all_moves(ch.x, ch.y, color, ch.king, &cache);
            proof {
                lemma_all_moves(p.board(), ch.x as int, ch.y as int, side, ch.king);
            }
            assert(moves_view(steps@) == ms);
            let ghost keep: bool;
            if exist_kills {
                if steps.len() > 0 && steps[0].2.len() == 0 {
                    steps.clear();
                }
                proof { keep = captures(ms); }
            } else {
                if steps.len() > 0 && steps[0].2.len() > 0 {
                    exist_kills = true;
                    res.clear();
                    proof {
                        lemma_no_capture_candidates(p, side, i as int);
                        keep = true;
                    }
                } else {
                    proof { keep = true; }
                }
            }
            let ghost base = if keep && exist_kills && !capture_upto(p, side, i as int) { Seq::<(int, MoveV)>::empty() } else { before };
            let ghost added = if keep { ms.map_values(|m: MoveV| (i as int, m)) } else { Seq::<(int, MoveV)>::empty() };
            assert(capture_upto(p, side, i + 1) == exist_kills) by {
                if captures(ms) {
                    assert(captures(piece_moves(p, side, i as int)));
                }
            }
            assert(candidates_upto(p, side, i + 1, exist_kills) == base + added);
            assert(res.len() == base.len());
            // each step becomes a searched node
            let n_steps = steps.len();
            assert(keep ==> moves_view(steps@) == ms);
            assert(!keep ==> n_steps == 0);
            for k in 0..n_steps
                invariant
                    p == fld@,
                    side == color,
                    p.in_bounds(),
                    color_ok(side),
                    i < 12,
                    ch == p.piece(i as int, side),
                    ch.live,
                    -(WIN_PRICE + 1) <= max_white <= WIN_PRICE + 1,
                    -(WIN_PRICE + 1) <= max_black <= WIN_PRICE + 1,
                    n_steps == steps.len(),
                    n_steps > 0 ==> moves_view(steps@) == ms,
                    n_steps > 0 ==> added == ms.map_values(|m: MoveV| (i as int, m)),
                    forall|j: int| 0 <= j < ms.len() ==> on_board((#[trigger] ms[j]).0 as int, ms[j].1 as int),
                    res.len() == base.len() + k,
                    forall|j: int|
                        0 <= j < res.len() ==> (#[trigger] res@[j]).searched(
                            p,
                            side,
                            depth as int,
                            heuristic_diff as int,
                            max_white as int,
                            max_black as int,
                            (base + added)[j],
                        ),
            {
                let nx = steps[k].0;
                let ny = steps[k].1;
                let killed = copy_path(&steps[k].2);
                let ghost cand = added[k as int];
                assert(moves_view(steps@)[k as int] == (nx, ny, killed@));
                assert(cand == (i as int, (nx, ny, killed@)));
                proof {
                    assert(ms.contains(ms[k as int]));
                }
                let node = search_node(fld, color, i, ch, nx, ny, killed, depth, heuristic_diff, max_white, max_black);
                assert(node.searched(p, side, depth as int, heuristic_diff as int, max_white as int, max_black as int, cand));
                res.push(node);
            }
        }
    }
    res
}

// ---------------------------------------------------------------------------
// Choosing a move.

/// A chosen move as a plain value: from column, from row, to column, to row,
/// captured cells.
pub type MoveTuple = (usize, usize, usize, usize, Seq<(usize, usize)>);

/// The value of candidate `c` at the root of a search: the score of the
/// current position is the best either side has reached so far.
pub open spec fn root_value(p: Position, side: int, depth: int, heur: int, c: (int, MoveV)) -> int {
    node_value(p, side, depth, heur, capacity_spec(p), -capacity_spec(p), c)
}

/// The greatest root value among the legal moves.
pub open spec fn max_root_value(p: Position, side: int, depth: int, heur: int) -> int {
    let l = legal_moves(p, side);
    best_value(p, side, depth, heur, capacity_spec(p), -capacity_spec(p), l, l.len() as int)
}

pub open spec fn move_tuple(p: Position, side: int, c: (int, MoveV)) -> MoveTuple {
    (p.piece(c.0, side).x, p.piece(c.0, side).y, c.1.0, c.1.1, c.1.2)
}

/// The best of the first `n` legal moves, last one first.
pub open spec fn best_popped(p: Position, side: int, depth: int, heur: int, n: int) -> Seq<MoveTuple>
    decreases n,
{
    if n <= 0 {
        seq![]
    } else {
        let c = legal_moves(p, side)[n - 1];
        (if root_value(p, side, depth, heur, c) == max_root_value(p, side, depth, heur) {
            seq![move_tuple(p, side, c)]
        } else {
            seq![]
        }) + best_popped(p, side, depth, heur, n - 1)
    }
}

/// The legal moves of greatest value, in reverse order of `legal_moves`.
pub open spec fn best_moves_spec(p: Position, side: int, depth: int, heur: int) -> Seq<MoveTuple> {
    best_popped(p, side, depth, heur, legal_moves(p, side).len() as int)
}

pub open spec fn tuples_view(v: Seq<(usize, usize, usize, usize, Box<Vec<(usize, usize)>>)>) -> Seq<MoveTuple> {
    v.map_values(|m: (usize, usize, usize, usize, Box<Vec<(usize, usize)>>)| (m.0, m.1, m.2, m.3, m.4@))
}

/// The legal moves of greatest value for side `color`, searched `max_depth`
/// plies deep, in reverse order of `legal_moves`.
pub fn best_moves(fld: &Field, color: Color, max_depth: usize, heuristic_diff: isize) -> (res: Vec<(usize, usize, usize, usize, Box<Vec<(usize, usize)>>)>)
    requires
        fld@.in_bounds(),
    ensures
        tuples_view(res@) == best_moves_spec(fld@, color.value(), max_depth as int, heuristic_diff as int),
{
    let ghost p = fld@;
    let ghost cv = color.value();
    let color: isize = match color {
        Color::White => 1,
        Color::Black => -1,
    };
    let ghost side = color as int;
    assert(side == cv);
    proof { lemma_material_bounds(p); }
    let c0 = capacity(fld);
    assert(-(WIN_PRICE + 1) <= c0 * color <= WIN_PRICE + 1) by (nonlinear_arith)
        requires
            -(WIN_PRICE + 1) <= c0 <= WIN_PRICE + 1,
            color == 1 || color == -1,
    ;
    let cur_cap = c0 * color;
    let (w, b) = if color == 1 {
        (cur_cap, -cur_cap)
    } else {
        (-cur_cap, cur_cap)
    };
    assert(w == capacity_spec(p) && b == -capacity_spec(p));
    let mut vec = rec_down(fld, color, max_depth, heuristic_diff, w, b);
    let ghost l = legal_moves(p, side);
    let ghost total = vec.len() as int;
    let mut resl: Vec<(usize, usize, usize, usize, Box<Vec<(usize, usize)>>)> = Vec::new();
    if vec.len() > 0 {
        let mut maxc = vec[0].max_val();
        let n = vec.len();
        for i in 0..n
            invariant
                n == vec.len(),
                n == l.len(),
                n > 0,
                maxc == best_value(p, side, max_depth as int, heuristic_diff as int, w as int, b as int, l, if i == 0 { 1 } else { i as int }),
                forall|k: int|
                    0 <= k < vec.len() ==> (#[trigger] vec@[k]).searched(
                        p,
                        side,
                        max_depth as int,
                        heuristic_diff as int,
                        w as int,
                        b as int,
                        l[k],
                    ),
        {
            if vec[i].max_val() > maxc {
                maxc = vec[i].max_val();
            }
        }
        assert(maxc == max_root_value(p, side, max_depth as int, heuristic_diff as int));
        loop
            invariant
                l == legal_moves(p, side),
                vec.len() <= l.len(),
                w == capacity_spec(p),
                b == -capacity_spec(p),
                total == l.len(),
                maxc == max_root_value(p, side, max_depth as int, heuristic_diff as int),
                forall|k: int|
                    0 <= k < vec.len() ==> (#[trigger] vec@[k]).searched(
                        p,
                        side,
                        max_depth as int,
                        heuristic_diff as int,
                        w as int,
                        b as int,
                        l[k],
                    ),
                tuples_view(resl@) + best_popped(p, side, max_depth as int, heuristic_diff as int, vec.len() as int)
                    == best_popped(p, side, max_depth as int, heuristic_diff as int, total),
            ensures
                tuples_view(resl@) == best_popped(p, side, max_depth as int, heuristic_diff as int, total),
            decreases vec.len(),
        {
            let ghost before = vec@;
            match vec.pop() {
                None => {
                    assert(tuples_view(resl@) =~= best_popped(p, side, max_depth as int, heuristic_diff as int, total));
                    break;
                },
                Some(item) => {
                    let ghost n = before.len() as int;
                    assert(item == before[n - 1]);
                    assert(item.searched(p, side, max_depth as int, heuristic_diff as int, w as int, b as int, l[n - 1]));
                    let ghost rv = resl@;
                    let ghost c = l[n - 1];
                    let ghost head = if root_value(p, side, max_depth as int, heuristic_diff as int, c) == max_root_value(p, side, max_depth as int, heuristic_diff as int) {
                        seq![move_tuple(p, side, c)]
                    } else {
                        Seq::<MoveTuple>::empty()
                    };
                    assert(best_popped(p, side, max_depth as int, heuristic_diff as int, n) == head + best_popped(p, side, max_depth as int, heuristic_diff as int, n - 1));
                    assert(item.value() == root_value(p, side, max_depth as int, heuristic_diff as int, c));
                    if item.max_val() == maxc {
                        resl.push((item.x, item.y, item.nx, item.ny, Box::new(copy_path(&item.killed))));
                        assert(tuples_view(resl@) =~= tuples_view(rv) + head);
                    } else {
                        assert(tuples_view(resl@) =~= tuples_view(rv) + head);
                    }
                    assert(tuples_view(resl@) + best_popped(p, side, max_depth as int, heuristic_diff as int, n - 1)
                        =~= best_popped(p, side, max_depth as int, heuristic_diff as int, total));
                },
            }
        }
    } else {
        assert(best_popped(p, side, max_depth as int, heuristic_diff as int, 0) == Seq::<MoveTuple>::empty());
        assert(tuples_view(resl@) =~= best_moves_spec(p, side, max_depth as int, heuristic_diff as int));
    }
    assert(tuples_view(resl@) == best_popped(p, side, max_depth as int, heuristic_diff as int, total));
    assert(total == legal_moves(p, side).len());
    assert(tuples_view(resl@) == best_moves_spec(p, cv, max_depth as int, heuristic_diff as int));
    resl
}

/// Calls `rand::random::<usize>()`: a value drawn from the thread-local
/// generator. Nothing is claimed of it.
#[verifier::external_body]
fn random_usize() -> (r: usize) {
    rand::random::<usize>()
}

/// Takes move number `r` (modulo their count) out of the moves `resl`.
fn pick(resl: Vec<(usize, usize, usize, usize, Box<Vec<(usize, usize)>>)>, r: usize) -> (res: Option<(usize, usize, usize, usize, Box<Vec<(usize, usize)>>)>)
    ensures
        res is None <==> resl.len() == 0,
        res matches Some(m) ==> (m.0, m.1, m.2, m.3, m.4@) == tuples_view(resl@)[(r as int) % (resl.len() as int)],
{
    let mut resl = resl;
    if resl.len() > 0 {
        let ghost before = tuples_view(resl@);
        let i = r % resl.len();
        let res = resl.remove(i);
        assert(before[i as int] == (res.0, res.1, res.2, res.3, res.4@));
        Some(res)
    } else {
        None
    }
}

/// The move that `next_move` plays when the random draw is `r`: best move
/// number `r` modulo their count (see `best_moves`); `None` when the side has
/// no legal move.
pub fn next_move_with(fld: &Field, color: Color, max_depth: usize, heuristic_diff: isize, r: usize) -> (res: Option<(usize, usize, usize, usize, Box<Vec<(usize, usize)>>)>)
    requires
        fld@.in_bounds(),
    ensures
        res is None <==> legal_moves(fld@, color.value()).len() == 0,
        res matches Some(m) ==> {
            let best = best_moves_spec(fld@, color.value(), max_depth as int, heuristic_diff as int);
            (m.0, m.1, m.2, m.3, m.4@) == best[(r as int) % (best.len() as int)]
        },
{
    proof { lemma_best_nonempty(fld@, color.value(), max_depth as int, heuristic_diff as int); }
    let resl = best_moves(fld, color, max_depth, heuristic_diff);
    pick(resl, r)
}

/// A best move for side `color`: one of `best_moves`, picked at random;
/// `None` when the side has no legal move.
pub fn next_move(fld: &Field, color: Color, max_depth: usize, heuristic_diff: isize) -> (r: Option<(usize, usize, usize, usize, Box<Vec<(usize, usize)>>)>)
    requires
        fld@.in_bounds(),
    ensures
        r is None <==> legal_moves(fld@, color.value()).len() == 0,
        r matches Some(m) ==> best_moves_spec(fld@, color.value(), max_depth as int, heuristic_diff as int).contains(
            (m.0, m.1, m.2, m.3, m.4@),
        ),
{
    let ghost spec_res = best_moves_spec(fld@, color.value(), max_depth as int, heuristic_diff as int);
    proof { lemma_best_nonempty(fld@, color.value(), max_depth as int, heuristic_diff as int); }
    let resl = best_moves(fld, color, max_depth, heuristic_diff);
    if resl.len() > 0 {
        let n = resl.len();
        let r = random_usize();
        let res = pick(resl, r);
        assert(spec_res.contains(spec_res[(r as int) % (n as int)]));
        res
    } else {
        None
    }
}

/// What a searched move is worth to the side that makes it. Let `cap` be the
/// score, from the mover's side, of the position the move produces, and `best`
/// the best score the mover has reached on the way (`mw` for white, `mb` for
/// black). The move is worth `cap` when the search stops there: no depth left,
/// the mover is more than `heur` below its best, the game is decided, or the
/// opponent has no reply. Otherwise it is worth minus the greatest value of
/// the opponent's replies, searched one ply less deep with the mover's best
/// raised to `cap` when `cap` exceeds it.
pub proof fn law_searched_move_value(p: Position, side: int, depth: int, heur: int, mw: int, mb: int, c: (int, MoveV))
    ensures
        ({
            let q = apply_move(p, side, c.0, c.1);
            let cap = capacity_spec(q) * side;
            let best = if side == 1 { mw } else { mb };
            let raised = if cap > best { cap } else { best };
            let w2 = if side == 1 { raised } else { mw };
            let b2 = if side == 1 { mb } else { raised };
            let kids = legal_moves(q, -side);
            let v = node_value(p, side, depth, heur, mw, mb, c);
            &&& (depth < 1 || best - cap > heur || cap >= WIN_PRICE || cap <= -WIN_PRICE || kids.len() == 0) ==> v == cap
            &&& (depth >= 1 && best - cap <= heur && -WIN_PRICE < cap < WIN_PRICE && kids.len() > 0) ==> {
                &&& forall|k: int| 0 <= k < kids.len() ==> v <= -node_value(q, -side, depth - 1, heur, w2, b2, #[trigger] kids[k])
                &&& exists|k: int| 0 <= k < kids.len() && v == -node_value(q, -side, depth - 1, heur, w2, b2, #[trigger] kids[k])
            }
        }),
{
    let q = apply_move(p, side, c.0, c.1);
    let cap = capacity_spec(q) * side;
    let best = if side == 1 { mw } else { mb };
    let raised = if cap > best { cap } else { best };
    let w2 = if side == 1 { raised } else { mw };
    let b2 = if side == 1 { mb } else { raised };
    let kids = legal_moves(q, -side);
    if depth >= 1 && best - cap <= heur && -WIN_PRICE < cap < WIN_PRICE && kids.len() > 0 {
        lemma_best_attained(q, -side, depth - 1, heur, w2, b2, kids, kids.len() as int);
    }
}

proof fn lemma_best_attained(p: Position, side: int, depth: int, heur: int, mw: int, mb: int, cs: Seq<(int, MoveV)>, n: int)
    requires
        1 <= n <= cs.len(),
    ensures
        exists|k: int| 0 <= k < n && node_value(p, side, depth, heur, mw, mb, #[trigger] cs[k]) == best_value(p, side, depth, heur, mw, mb, cs, n),
        forall|k: int| 0 <= k < n ==> node_value(p, side, depth, heur, mw, mb, #[trigger] cs[k]) <= best_value(p, side, depth, heur, mw, mb, cs, n),
    decreases n,
{
    if n <= 1 {
        assert(node_value(p, side, depth, heur, mw, mb, cs[0]) == best_value(p, side, depth, heur, mw, mb, cs, n));
    } else {
        lemma_best_attained(p, side, depth, heur, mw, mb, cs, n - 1);
        let a = best_value(p, side, depth, heur, mw, mb, cs, n - 1);
        let b = node_value(p, side, depth, heur, mw, mb, cs[n - 1]);
        if b > a {
            assert(node_value(p, side, depth, heur, mw, mb, cs[n - 1]) == best_value(p, side, depth, heur, mw, mb, cs, n));
        } else {
            let k = choose|k: int| 0 <= k < n - 1 && node_value(p, side, depth, heur, mw, mb, #[trigger] cs[k]) == best_value(p, side, depth, heur, mw, mb, cs, n - 1);
            assert(node_value(p, side, depth, heur, mw, mb, cs[k]) == best_value(p, side, depth, heur, mw, mb, cs, n));
        }
    }
}

proof fn lemma_best_popped_contains(p: Position, side: int, depth: int, heur: int, n: int, k: int)
    requires
        0 <= k < n <= legal_moves(p, side).len(),
        root_value(p, side, depth, heur, legal_moves(p, side)[k]) == max_root_value(p, side, depth, heur),
    ensures
        best_popped(p, side, depth, heur, n).contains(move_tuple(p, side, legal_moves(p, side)[k])),
    decreases n,
{
    let t = move_tuple(p, side, legal_moves(p, side)[k]);
    let head = if root_value(p, side, depth, heur, legal_moves(p, side)[n - 1]) == max_root_value(p, side, depth, heur) {
        seq![move_tuple(p, side, legal_moves(p, side)[n - 1])]
    } else {
        seq![]
    };
    assert(best_popped(p, side, depth, heur, n) == head + best_popped(p, side, depth, heur, n - 1));
    if k == n - 1 {
        assert(best_popped(p, side, depth, heur, n)[0] == t);
    } else {
        lemma_best_popped_contains(p, side, depth, heur, n - 1, k);
        let rest = best_popped(p, side, depth, heur, n - 1);
        let j = choose|j: int| 0 <= j < rest.len() && #[trigger] rest[j] == t;
        assert(best_popped(p, side, depth, heur, n)[j + head.len()] == t);
    }
}

/// A side with a legal move has a best move.
proof fn lemma_best_nonempty(p: Position, side: int, depth: int, heur: int)
    ensures
        best_moves_spec(p, side, depth, heur).len() > 0 <==> legal_moves(p, side).len() > 0,
{
    let l = legal_moves(p, side);
    if l.len() > 0 {
        lemma_best_attained(p, side, depth, heur, capacity_spec(p), -capacity_spec(p), l, l.len() as int);
        let k = choose|k: int| 0 <= k < l.len() && node_value(p, side, depth, heur, capacity_spec(p), -capacity_spec(p), #[trigger] l[k]) == max_root_value(p, side, depth, heur);
        lemma_best_popped_contains(p, side, depth, heur, l.len() as int, k);
    } else {
        assert(best_moves_spec(p, side, depth, heur) == Seq::<MoveTuple>::empty());
    }
}

// ---------------------------------------------------------------------------
// Where chosen moves come from.

proof fn lemma_candidates_member(p: Position, side: int, n: int, mc: bool)
    requires
        n <= 12,
    ensures
        forall|k: int| 0 <= k < candidates_upto(p, side, n, mc).len() ==> {
            let c = #[trigger] candidates_upto(p, side, n, mc)[k];
            0 <= c.0 < n && piece_moves(p, side, c.0).contains(c.1)
        },
    decreases n,
{
    if n > 0 {
        lemma_candidates_member(p, side, n - 1, mc);
        let ms = piece_moves(p, side, n - 1);
        let prev = candidates_upto(p, side, n - 1, mc);
        let tail = if !mc || captures(ms) {
            ms.map_values(|m: MoveV| (n - 1, m))
        } else {
            seq![]
        };
        let all = candidates_upto(p, side, n, mc);
        assert(all == prev + tail);
        assert forall|k: int| 0 <= k < all.len() implies {
            let c = #[trigger] all[k];
            0 <= c.0 < n && piece_moves(p, side, c.0).contains(c.1)
        } by {
            if k < prev.len() {
                assert(all[k] == prev[k]);
            } else {
                let j = k - prev.len();
                assert(all[k] == tail[j]);
                assert(tail[j] == (n - 1, ms[j]));
                assert(ms.contains(ms[j]));
            }
        }
    }
}

/// Every legal move is a move of a piece of the side, made by that piece.
proof fn lemma_legal_member(p: Position, side: int)
    ensures
        forall|k: int| 0 <= k < legal_moves(p, side).len() ==> {
            let c = #[trigger] legal_moves(p, side)[k];
            0 <= c.0 < 12 && p.piece(c.0, side).live && piece_moves(p, side, c.0).contains(c.1)
        },
{
    lemma_candidates_member(p, side, 12, must_capture(p, side));
    assert forall|k: int| 0 <= k < legal_moves(p, side).len() implies {
        let c = #[trigger] legal_moves(p, side)[k];
        0 <= c.0 < 12 && p.piece(c.0, side).live && piece_moves(p, side, c.0).contains(c.1)
    } by {
        let c = legal_moves(p, side)[k];
        assert(piece_moves(p, side, c.0).contains(c.1));
    }
}

proof fn lemma_best_popped_member(p: Position, side: int, depth: int, heur: int, n: int)
    requires
        n <= legal_moves(p, side).len(),
    ensures
        forall|t: MoveTuple| #[trigger] best_popped(p, side, depth, heur, n).contains(t) ==> exists|k: int|
            0 <= k < n && t == move_tuple(p, side, #[trigger] legal_moves(p, side)[k]) && root_value(
                p,
                side,
                depth,
                heur,
                legal_moves(p, side)[k],
            ) == max_root_value(p, side, depth, heur),
    decreases n,
{
    if n > 0 {
        lemma_best_popped_member(p, side, depth, heur, n - 1);
        let c = legal_moves(p, side)[n - 1];
        let head = if root_value(p, side, depth, heur, c) == max_root_value(p, side, depth, heur) {
            seq![move_tuple(p, side, c)]
        } else {
            seq![]
        };
        let rest = best_popped(p, side, depth, heur, n - 1);
        assert(best_popped(p, side, depth, heur, n) == head + rest);
        assert forall|t: MoveTuple| #[trigger] best_popped(p, side, depth, heur, n).contains(t) implies exists|k: int|
            0 <= k < n && t == move_tuple(p, side, #[trigger] legal_moves(p, side)[k]) && root_value(
                p,
                side,
                depth,
                heur,
                legal_moves(p, side)[k],
            ) == max_root_value(p, side, depth, heur) by {
            let j = choose|j: int| 0 <= j < (head + rest).len() && (head + rest)[j] == t;
            if j < head.len() {
                assert(t == move_tuple(p, side, legal_moves(p, side)[n - 1]));
            } else {
                assert(rest[j - head.len()] == t);
                assert(rest.contains(t));
            }
        }
    }
}

/// What is known of a best move: it is a legal move of the side, of greatest
/// value, made by a live piece of the side standing where the move starts.
pub proof fn lemma_best_move_origin(p: Position, side: int, depth: int, heur: int, t: MoveTuple)
    requires
        best_moves_spec(p, side, depth, heur).contains(t),
    ensures
        exists|k: int|
            0 <= k < legal_moves(p, side).len() && t == move_tuple(p, side, #[trigger] legal_moves(p, side)[k])
                && root_value(p, side, depth, heur, legal_moves(p, side)[k]) == max_root_value(p, side, depth, heur)
                && 0 <= legal_moves(p, side)[k].0 < 12 && p.piece(legal_moves(p, side)[k].0, side).live
                && piece_moves(p, side, legal_moves(p, side)[k].0).contains(legal_moves(p, side)[k].1),
{
    lemma_best_popped_member(p, side, depth, heur, legal_moves(p, side).len() as int);
    lemma_legal_member(p, side);
    let k = choose|k: int|
        0 <= k < legal_moves(p, side).len() && t == move_tuple(p, side, #[trigger] legal_moves(p, side)[k]) && root_value(
            p,
            side,
            depth,
            heur,
            legal_moves(p, side)[k],
        ) == max_root_value(p, side, depth, heur);
    assert(0 <= legal_moves(p, side)[k].0 < 12);
}

/// The greatest root value bounds every legal move's root value.
pub proof fn lemma_best_bounds(p: Position, side: int, depth: int, heur: int)
    ensures
        forall|k: int|
            0 <= k < legal_moves(p, side).len() ==> root_value(p, side, depth, heur, #[trigger] legal_moves(p, side)[k])
                <= max_root_value(p, side, depth, heur),
{
    let l = legal_moves(p, side);
    if l.len() > 0 {
        lemma_best_attained(p, side, depth, heur, capacity_spec(p), -capacity_spec(p), l, l.len() as int);
    }
}

/// The best moves are exactly the legal moves of greatest searched value,
/// where at the root the best score either side has reached is the current
/// score from its own side (`capacity_spec(p)` for white, its negation for black).
pub proof fn law_best_moves_exact(p: Position, side: int, depth: int, heur: int)
    ensures
        forall|t: MoveTuple|
            #[trigger] best_moves_spec(p, side, depth, heur).contains(t) <==> exists|k: int|
                0 <= k < legal_moves(p, side).len() && t == move_tuple(p, side, #[trigger] legal_moves(p, side)[k]) && forall|j: int|
                    0 <= j < legal_moves(p, side).len() ==> node_value(p, side, depth, heur, capacity_spec(p), -capacity_spec(p), #[trigger] legal_moves(p, side)[j])
                        <= node_value(p, side, depth, heur, capacity_spec(p), -capacity_spec(p), legal_moves(p, side)[k]),
{
    let l = legal_moves(p, side);
    let mw = capacity_spec(p);
    let mb = -capacity_spec(p);
    lemma_best_bounds(p, side, depth, heur);
    assert forall|t: MoveTuple| #[trigger] best_moves_spec(p, side, depth, heur).contains(t) implies exists|k: int|
        0 <= k < l.len() && t == move_tuple(p, side, #[trigger] l[k]) && forall|j: int|
            0 <= j < l.len() ==> node_value(p, side, depth, heur, mw, mb, #[trigger] l[j]) <= node_value(p, side, depth, heur, mw, mb, l[k]) by {
        lemma_best_move_origin(p, side, depth, heur, t);
        let k = choose|k: int|
            0 <= k < l.len() && t == move_tuple(p, side, #[trigger] l[k]) && root_value(p, side, depth, heur, l[k]) == max_root_value(
                p,
                side,
                depth,
                heur,
            );
        assert forall|j: int| 0 <= j < l.len() implies node_value(p, side, depth, heur, mw, mb, #[trigger] l[j]) <= node_value(
            p,
            side,
            depth,
            heur,
            mw,
            mb,
            l[k],
        ) by {
            assert(root_value(p, side, depth, heur, l[j]) <= max_root_value(p, side, depth, heur));
        }
    }
    assert forall|t: MoveTuple| (exists|k: int|
        0 <= k < l.len() && t == move_tuple(p, side, #[trigger] l[k]) && forall|j: int|
            0 <= j < l.len() ==> node_value(p, side, depth, heur, mw, mb, #[trigger] l[j]) <= node_value(p, side, depth, heur, mw, mb, l[k]))
        implies #[trigger] best_moves_spec(p, side, depth, heur).contains(t) by {
        let k = choose|k: int|
            0 <= k < l.len() && t == move_tuple(p, side, #[trigger] l[k]) && forall|j: int|
                0 <= j < l.len() ==> node_value(p, side, depth, heur, mw, mb, #[trigger] l[j]) <= node_value(p, side, depth, heur, mw, mb, l[k]);
        lemma_best_attained(p, side, depth, heur, mw, mb, l, l.len() as int);
        let k2 = choose|k2: int| 0 <= k2 < l.len() && node_value(p, side, depth, heur, mw, mb, #[trigger] l[k2]) == best_value(
            p,
            side,
            depth,
            heur,
            mw,
            mb,
            l,
            l.len() as int,
        );
        assert(node_value(p, side, depth, heur, mw, mb, l[k2]) <= node_value(p, side, depth, heur, mw, mb, l[k]));
        assert(root_value(p, side, depth, heur, l[k]) == max_root_value(p, side, depth, heur));
        lemma_best_popped_contains(p, side, depth, heur, l.len() as int, k);
    }
}

} // verus!
