use vstd::prelude::*;
use crate::solve::grid;
use vstd::utf8::{encode_utf8, encode_scalar};

verus! {

/// One piece on the board. `x` is the column and `y` the row.
#[derive(Clone, Copy)]
pub struct Checker {
    pub x: usize,
    pub y: usize,
    pub king: bool,
    pub live: bool,
}

/// The two armies, twelve pieces each. A piece with `live == false` is off the board.
pub struct Field {
    pub white: Box<[Checker; 12]>,
    pub black: Box<[Checker; 12]>,
}

/// A live piece stands on one of the 64 cells.
pub open spec fn checker_in_bounds(c: Checker) -> bool {
    c.live ==> c.x < 8 && c.y < 8
}

/// The value a piece leaves in the cell cache: 1 / 2 for a white man / king,
/// -1 / -2 for a black man / king.
pub open spec fn piece_code(c: Checker, side: int) -> isize {
    if c.king { (2 * side) as isize } else { side as isize }
}

/// Whether piece `c` is live and stands on column `x`, row `y`.
pub open spec fn stands_at(c: Checker, x: int, y: int) -> bool {
    c.live && c.x == x && c.y == y
}


/// Where the `i`-th piece of a side stands at the start of a game: white on
/// rows 5-7, black on rows 0-2, four per row, on the cells whose row and column
/// add up to an odd number:
///
/// ```text
/// 0 .b.b.b.b
/// 1 b.b.b.b.
/// 2 .b.b.b.b
/// 3 ........
/// 4 ........
/// 5 w.w.w.w.
/// 6 .w.w.w.w
/// 7 w.w.w.w.
///   01234567
/// ```
pub open spec fn initial_piece(side: int, i: int) -> Checker {
    let row = i / 4;
    let k = i % 4;
    if side == 1 {
        Checker {
            x: (if row == 1 { 2 * k + 1 } else { 2 * k }) as usize,
            y: (5 + row) as usize,
            king: false,
            live: true,
        }
    } else {
        Checker {
            x: (if row == 1 { 2 * k } else { 2 * k + 1 }) as usize,
            y: row as usize,
            king: false,
            live: true,
        }
    }
}

/// Places four men on row `y` from index `from` on, on the even columns when
/// `even` holds, else on the odd ones.
fn mk_line(arr: &mut [Checker; 12], from: usize, y: usize, even: bool)
    requires
        from <= 8,
    ensures
        forall|j: int| 0 <= j < 12 && !(from <= j < from + 4) ==> #[trigger] final(arr)@[j] == old(arr)@[j],
        forall|j: int|
            from <= j < from + 4 ==> (#[trigger] final(arr)@[j]).y == y && final(arr)@[j].x == (if even {
                2 * (j - from)
            } else {
                2 * (j - from) + 1
            }) && final(arr)@[j].king == old(arr)@[j].king && final(arr)@[j].live == old(arr)@[j].live,
{
    for i in 0..4
        invariant
            from <= 8,
            forall|j: int| 0 <= j < 12 && !(from <= j < from + i) ==> #[trigger] arr@[j] == old(arr)@[j],
            forall|j: int|
                from <= j < from + i ==> (#[trigger] arr@[j]).y == y && arr@[j].x == (if even {
                    2 * (j - from)
                } else {
                    2 * (j - from) + 1
                }) && arr@[j].king == old(arr)@[j].king && arr@[j].live == old(arr)@[j].live,
    {
        let mut ch = arr[from + i];
        ch.y = y;
        ch.x = if even { i * 2 } else { (i + 1) * 2 - 1 };
        arr[from + i] = ch;
    }
}

/// The plain-value form of a `Field`: the two armies as sequences of pieces.
pub struct Position {
    pub white: Seq<Checker>,
    pub black: Seq<Checker>,
}

impl View for Field {
    type V = Position;

    open spec fn view(&self) -> Position {
        Position { white: self.white@, black: self.black@ }
    }
}

impl Position {
    pub open spec fn white_at(&self, i: int) -> Checker {
        self.white[i]
    }

    pub open spec fn black_at(&self, i: int) -> Checker {
        self.black[i]
    }

    /// Both armies have twelve pieces, and every live piece stands on the board.
    pub open spec fn in_bounds(&self) -> bool {
        &&& self.white.len() == 12
        &&& self.black.len() == 12
        &&& forall|i: int| 0 <= i < 12 ==> checker_in_bounds(#[trigger] self.white_at(i))
        &&& forall|i: int| 0 <= i < 12 ==> checker_in_bounds(#[trigger] self.black_at(i))
    }

    /// The cache value of cell (column `x`, row `y`) after the pieces with index
    /// below `n` have been placed, white before black at each index.
    pub open spec fn cell_upto(&self, n: int, x: int, y: int) -> isize
        decreases n,
    {
        if n <= 0 {
            0
        } else if stands_at(self.black_at(n - 1), x, y) {
            piece_code(self.black_at(n - 1), -1)
        } else if stands_at(self.white_at(n - 1), x, y) {
            piece_code(self.white_at(n - 1), 1)
        } else {
            self.cell_upto(n - 1, x, y)
        }
    }

    /// The cache value of cell (column `x`, row `y`): the code of the piece that
    /// stands there (the last one in placing order, should several share the cell), else 0.
    pub open spec fn cell(&self, x: int, y: int) -> isize {
        self.cell_upto(12, x, y)
    }

    /// The cell cache as rows of cells.
    pub open spec fn board(&self) -> Seq<Seq<isize>> {
        Seq::new(8, |r: int| Seq::new(8, |c: int| self.cell(c, r)))
    }

    /// The first live piece on column `x`, row `y`, searching index by index,
    /// white before black: its index and side (1 white, -1 black).
    pub open spec fn locate_from(&self, i: int, x: int, y: int) -> Option<(int, int)>
        decreases 12 - i,
    {
        if i < 0 || i >= 12 {
            None
        } else if stands_at(self.white_at(i), x, y) {
            Some((i, 1))
        } else if stands_at(self.black_at(i), x, y) {
            Some((i, -1))
        } else {
            self.locate_from(i + 1, x, y)
        }
    }

    pub open spec fn locate(&self, x: int, y: int) -> Option<(int, int)> {
        self.locate_from(0, x, y)
    }

    /// The side (1 white, -1 black) of the piece that `locate` finds, else 0.
    pub open spec fn side_at(&self, x: int, y: int) -> int {
        match self.locate(x, y) {
            Some((_, side)) => side,
            None => 0,
        }
    }

    /// The piece with index `i` of side `side`.
    pub open spec fn piece(&self, i: int, side: int) -> Checker {
        if side == 1 {
            self.white_at(i)
        } else {
            self.black_at(i)
        }
    }

    proof fn lemma_codes_upto(&self, n: int, x: int, y: int)
        ensures
            valid_code(self.cell_upto(n, x, y)),
        decreases n,
    {
        if n > 0 {
            self.lemma_codes_upto(n - 1, x, y);
        }
    }

    /// Every cache value is 0 or a piece code.
    pub(crate) proof fn lemma_codes(&self)
        ensures
            forall|y: int, x: int| 0 <= y < 8 && 0 <= x < 8 ==> valid_code(#[trigger] self.cell(x, y)),
    {
        assert forall|y: int, x: int| 0 <= y < 8 && 0 <= x < 8 implies valid_code(#[trigger] self.cell(x, y)) by {
            self.lemma_codes_upto(12, x, y);
        }
    }

    /// Some live piece of either side stands on column `x`, row `y`.
    pub open spec fn occupied(&self, x: int, y: int) -> bool {
        exists|i: int, side: int| 0 <= i < 12 && (side == 1 || side == -1) && #[trigger] stands_at(self.piece(i, side), x, y)
    }

    proof fn lemma_cell_upto_occupied(&self, n: int, x: int, y: int)
        requires
            n <= 12,
        ensures
            self.cell_upto(n, x, y) != 0 ==> self.occupied(x, y),
        decreases n,
    {
        if n > 0 {
            self.lemma_cell_upto_occupied(n - 1, x, y);
            if stands_at(self.black_at(n - 1), x, y) {
                assert(stands_at(self.piece(n - 1, -1), x, y));
            } else if stands_at(self.white_at(n - 1), x, y) {
                assert(stands_at(self.piece(n - 1, 1), x, y));
            }
        }
    }

    /// A cell whose cache value is not 0 holds a live piece.
    pub proof fn lemma_cell_occupied(&self, x: int, y: int)
        ensures
            self.cell(x, y) != 0 ==> self.occupied(x, y),
    {
        self.lemma_cell_upto_occupied(12, x, y);
    }

    proof fn lemma_locate_from_some(&self, k: int, x: int, y: int, i: int, side: int)
        requires
            0 <= k <= i < 12,
            side == 1 || side == -1,
            stands_at(self.piece(i, side), x, y),
        ensures
            self.locate_from(k, x, y) is Some,
        decreases 12 - k,
    {
        if k < i {
            if !stands_at(self.white_at(k), x, y) && !stands_at(self.black_at(k), x, y) {
                self.lemma_locate_from_some(k + 1, x, y, i, side);
            }
        }
    }

    /// `locate` finds a piece on every occupied cell.
    pub proof fn lemma_occupied_locate(&self, x: int, y: int)
        requires
            self.occupied(x, y),
        ensures
            self.locate(x, y) is Some,
    {
        let (i, side) = choose|i: int, side: int| 0 <= i < 12 && (side == 1 || side == -1) && #[trigger] stands_at(self.piece(i, side), x, y);
        self.lemma_locate_from_some(0, x, y, i, side);
    }

    /// A piece found by `locate` is live, of side 1 or -1, and stands there.
    pub proof fn lemma_locate(&self, x: int, y: int)
        ensures
            self.locate(x, y) matches Some((i, side)) ==> 0 <= i < 12 && (side == 1 || side == -1)
                && stands_at(self.piece(i, side), x, y),
    {
        self.lemma_locate_from(0, x, y);
    }

    proof fn lemma_locate_from(&self, k: int, x: int, y: int)
        ensures
            self.locate_from(k, x, y) matches Some((i, side)) ==> k <= i < 12 && (side == 1 || side == -1)
                && stands_at(self.piece(i, side), x, y),
        decreases 12 - k,
    {
        if 0 <= k < 12 {
            self.lemma_locate_from(k + 1, x, y);
        }
    }

}

/// The character that shows cell value `v` on row `i`, column `j`: `w`/`W`
/// for a white man/king, `b`/`B` for a black one, and for an empty cell `.`
/// where `i + j` is even, a space elsewhere.
pub open spec fn cell_char(v: isize, i: int, j: int) -> char {
    if v == 1 {
        'w'
    } else if v == 2 {
        'W'
    } else if v == -1 {
        'b'
    } else if v == -2 {
        'B'
    } else if (i + j) % 2 == 0 {
        '.'
    } else {
        ' '
    }
}

/// A cache value: 0 or a piece code.
pub open spec fn valid_code(v: isize) -> bool {
    v == 0 || v == 1 || v == 2 || v == -1 || v == -2
}

/// The text for cell value `v` on row `i`, column `j`.
fn cell_str(v: isize, i: usize, j: usize) -> (r: &'static str)
    requires
        valid_code(v),
        i < 8,
        j < 8,
    ensures
        r@ == seq![cell_char(v, i as int, j as int)],
{
    match v {
        0 => if (i + j) % 2 == 0 {
            proof { reveal_strlit("."); }
            "."
        } else {
            proof { reveal_strlit(" "); }
            " "
        },
        1 => {
            proof { reveal_strlit("w"); }
            "w"
        },
        2 => {
            proof { reveal_strlit("W"); }
            "W"
        },
        -1 => {
            proof { reveal_strlit("b"); }
            "b"
        },
        _ => {
            proof { reveal_strlit("B"); }
            "B"
        },
    }
}

/// Row `i` of the board as text.
pub open spec fn row_text(p: Position, i: int) -> Seq<char> {
    Seq::new(8, |j: int| cell_char(p.cell(j, i), i, j))
}

/// The first `n` rows of the board as text, each followed by a newline.
pub open spec fn board_text(p: Position, n: int) -> Seq<char>
    decreases n,
{
    if n <= 0 {
        seq![]
    } else {
        board_text(p, n - 1) + row_text(p, n - 1) + seq!['\n']
    }
}

/// The border left of column `j` on row `i` when the cursor is on row `ci`,
/// column `cj`: `<` / `>` around the cursor cell (`)` / `(` once a piece is
/// grabbed), else `|`.
pub open spec fn hlim_text(i: int, j: int, ci: int, cj: int, grabbed: bool) -> Seq<char> {
    if i == ci && j == cj {
        if grabbed {
            seq![')']
        } else {
            seq!['<']
        }
    } else if i == ci && j == cj - 1 {
        if grabbed {
            seq!['(']
        } else {
            seq!['>']
        }
    } else {
        seq!['|']
    }
}

/// The border below cell (row `i`, column `j`): `+^` under the cursor cell,
/// `+v` above it, else `+-`.
pub open spec fn vlim_text(i: int, j: int, ci: int, cj: int) -> Seq<char> {
    if j == cj && i == ci {
        seq!['+', '^']
    } else if j == cj && i == ci - 1 {
        seq!['+', 'v']
    } else {
        seq!['+', '-']
    }
}

/// The borders below the first `n` cells of row `i`.
pub open spec fn vlim_row(i: int, n: int, ci: int, cj: int) -> Seq<char>
    decreases n,
{
    if n <= 0 {
        seq![]
    } else {
        vlim_row(i, n - 1, ci, cj) + vlim_text(i, n - 1, ci, cj)
    }
}

/// Column `j`, row `i` is one of the marked cells.
pub open spec fn marked(mark: Seq<(usize, usize)>, j: int, i: int) -> bool {
    exists|k: int| 0 <= k < mark.len() && (#[trigger] mark[k]).0 == j && mark[k].1 == i
}

/// The character of cell (row `i`, column `j`) on the cursor display: `x` on
/// the crossed cell, `@` on a marked one, else as `cell_char`.
pub open spec fn crd_char(p: Position, i: int, j: int, mark: Seq<(usize, usize)>, cross: Option<(usize, usize)>) -> char {
    if cross matches Some((cx, cy)) && cx == j && cy == i {
        'x'
    } else if marked(mark, j, i) {
        '@'
    } else {
        cell_char(p.cell(j, i), i, j)
    }
}

/// Row `i` of the cursor display up to its first `n` cells.
pub open spec fn crd_line(
    p: Position,
    i: int,
    n: int,
    ci: int,
    cj: int,
    grabbed: bool,
    mark: Seq<(usize, usize)>,
    cross: Option<(usize, usize)>,
) -> Seq<char>
    decreases n,
{
    if n <= 0 {
        hlim_text(i, -1, ci, cj, grabbed)
    } else {
        crd_line(p, i, n - 1, ci, cj, grabbed, mark, cross) + seq![crd_char(p, i, n - 1, mark, cross)] + hlim_text(
            i,
            n - 1,
            ci,
            cj,
            grabbed,
        )
    }
}

/// The cursor display: a top border, then for each of the first `n` rows its
/// line and the border below it.
pub open spec fn crd_text(
    p: Position,
    n: int,
    ci: int,
    cj: int,
    grabbed: bool,
    mark: Seq<(usize, usize)>,
    cross: Option<(usize, usize)>,
) -> Seq<char>
    decreases n,
{
    if n <= 0 {
        vlim_row(-1, 8, ci, cj) + seq!['\n']
    } else {
        crd_text(p, n - 1, ci, cj, grabbed, mark, cross) + crd_line(p, n - 1, 8, ci, cj, grabbed, mark, cross) + seq!['\n']
            + vlim_row(n - 1, 8, ci, cj) + seq!['\n']
    }
}

fn hlim(i: isize, j: isize, ci: isize, cj: isize, grabbed: bool) -> (r: &'static str)
    requires
        cj > isize::MIN,
    ensures
        r@ == hlim_text(i as int, j as int, ci as int, cj as int, grabbed),
{
    if i == ci {
        if j == cj {
            if grabbed {
                proof { reveal_strlit(")"); }
                ")"
            } else {
                proof { reveal_strlit("<"); }
                "<"
            }
        } else if j == cj - 1 {
            if grabbed {
                proof { reveal_strlit("("); }
                "("
            } else {
                proof { reveal_strlit(">"); }
                ">"
            }
        } else {
            proof { reveal_strlit("|"); }
            "|"
        }
    } else {
        proof { reveal_strlit("|"); }
        "|"
    }
}

fn vlim(i: isize, j: isize, ci: isize, cj: isize) -> (r: &'static str)
    requires
        ci > isize::MIN,
    ensures
        r@ == vlim_text(i as int, j as int, ci as int, cj as int),
{
    if j == cj {
        if i == ci {
            proof { reveal_strlit("+^"); }
            "+^"
        } else if i == ci - 1 {
            proof { reveal_strlit("+v"); }
            "+v"
        } else {
            proof { reveal_strlit("+-"); }
            "+-"
        }
    } else {
        proof { reveal_strlit("+-"); }
        "+-"
    }
}

proof fn lemma_vlim_row_len(i: int, n: int, ci: int, cj: int)
    requires
        0 <= n,
    ensures
        vlim_row(i, n, ci, cj).len() == 2 * n,
    decreases n,
{
    if n > 0 {
        lemma_vlim_row_len(i, n - 1, ci, cj);
    }
}

proof fn lemma_crd_line(p: Position, i: int, n: int, ci: int, cj: int, grabbed: bool, mark: Seq<(usize, usize)>, cross: Option<(usize, usize)>)
    requires
        0 <= n,
    ensures
        crd_line(p, i, n, ci, cj, grabbed, mark, cross).len() == 1 + 2 * n,
        forall|c: int| 0 <= c < n ==> #[trigger] crd_line(p, i, n, ci, cj, grabbed, mark, cross)[1 + 2 * c] == crd_char(p, i, c, mark, cross),
    decreases n,
{
    if n > 0 {
        lemma_crd_line(p, i, n - 1, ci, cj, grabbed, mark, cross);
        let a = crd_line(p, i, n - 1, ci, cj, grabbed, mark, cross);
        let l = crd_line(p, i, n, ci, cj, grabbed, mark, cross);
        assert(l == a + seq![crd_char(p, i, n - 1, mark, cross)] + hlim_text(i, n - 1, ci, cj, grabbed));
        assert forall|c: int| 0 <= c < n implies #[trigger] l[1 + 2 * c] == crd_char(p, i, c, mark, cross) by {
            if c < n - 1 {
                assert(l[1 + 2 * c] == a[1 + 2 * c]);
            }
        }
    }
}

proof fn lemma_crd_text(p: Position, n: int, ci: int, cj: int, grabbed: bool, mark: Seq<(usize, usize)>, cross: Option<(usize, usize)>)
    requires
        0 <= n,
    ensures
        crd_text(p, n, ci, cj, grabbed, mark, cross).len() == 17 + 35 * n,
        forall|r: int, c: int|
            0 <= r < n && 0 <= c < 8 ==> #[trigger] crd_text(p, n, ci, cj, grabbed, mark, cross)[18 + 35 * r + 2 * c] == crd_char(
                p,
                r,
                c,
                mark,
                cross,
            ),
    decreases n,
{
    lemma_vlim_row_len(-1, 8, ci, cj);
    if n > 0 {
        lemma_crd_text(p, n - 1, ci, cj, grabbed, mark, cross);
        lemma_crd_line(p, n - 1, 8, ci, cj, grabbed, mark, cross);
        lemma_vlim_row_len(n - 1, 8, ci, cj);
        let a = crd_text(p, n - 1, ci, cj, grabbed, mark, cross);
        let line = crd_line(p, n - 1, 8, ci, cj, grabbed, mark, cross);
        let t = crd_text(p, n, ci, cj, grabbed, mark, cross);
        assert(t == a + line + seq!['\n'] + vlim_row(n - 1, 8, ci, cj) + seq!['\n']);
        assert forall|r: int, c: int| 0 <= r < n && 0 <= c < 8 implies #[trigger] t[18 + 35 * r + 2 * c] == crd_char(p, r, c, mark, cross) by {
            if r < n - 1 {
                assert(t[18 + 35 * r + 2 * c] == a[18 + 35 * r + 2 * c]);
            } else {
                assert(t[18 + 35 * r + 2 * c] == line[1 + 2 * c]);
            }
        }
    }
}

proof fn lemma_board_text(p: Position, n: int)
    requires
        0 <= n,
    ensures
        board_text(p, n).len() == 9 * n,
        forall|r: int, c: int| 0 <= r < n && 0 <= c < 8 ==> #[trigger] board_text(p, n)[9 * r + c] == cell_char(p.cell(c, r), r, c),
        forall|r: int| 0 <= r < n ==> #[trigger] board_text(p, n)[9 * r + 8] == '\n',
    decreases n,
{
    if n > 0 {
        lemma_board_text(p, n - 1);
        let a = board_text(p, n - 1);
        let t = board_text(p, n);
        assert(t == a + row_text(p, n - 1) + seq!['\n']);
        assert forall|r: int, c: int| 0 <= r < n && 0 <= c < 8 implies #[trigger] t[9 * r + c] == cell_char(p.cell(c, r), r, c) by {
            if r < n - 1 {
                assert(t[9 * r + c] == a[9 * r + c]);
            } else {
                assert(t[9 * r + c] == row_text(p, n - 1)[c]);
            }
        }
        assert forall|r: int| 0 <= r < n implies #[trigger] t[9 * r + 8] == '\n' by {
            if r < n - 1 {
                assert(t[9 * r + 8] == a[9 * r + 8]);
            }
        }
    }
}

/// The cursor display shows each cell (row `r`, column `c`) as the plain board
/// text does, unless the cell is crossed (`x`) or marked (`@`): the cell sits at
/// index `18 + 35 * r + 2 * c` of the display and at `9 * r + c` of the board text.
pub proof fn law_cursor_display_shows_board(
    p: Position,
    ci: int,
    cj: int,
    grabbed: bool,
    mark: Seq<(usize, usize)>,
    cross: Option<(usize, usize)>,
)
    ensures
        crd_text(p, 8, ci, cj, grabbed, mark, cross).len() == 297,
        board_text(p, 8).len() == 72,
        forall|r: int, c: int|
            0 <= r < 8 && 0 <= c < 8 ==> #[trigger] crd_text(p, 8, ci, cj, grabbed, mark, cross)[18 + 35 * r + 2 * c] == if cross
                matches Some((cx, cy)) && cx == c && cy == r {
                'x'
            } else if marked(mark, c, r) {
                '@'
            } else {
                board_text(p, 8)[9 * r + c]
            },
{
    lemma_crd_text(p, 8, ci, cj, grabbed, mark, cross);
    lemma_board_text(p, 8);
}

// ---------------------------------------------------------------------------
// Reading a board from text.

/// The length in bytes of `s` encoded as UTF-8.
pub open spec fn byte_len(s: Seq<char>) -> nat {
    encode_utf8(s).len()
}

proof fn lemma_byte_len_push(s: Seq<char>, c: char)
    ensures
        byte_len(s.push(c)) == byte_len(s) + encode_scalar(c as u32).len(),
    decreases s.len(),
{
    assert(encode_utf8(s.push(c)) == encode_scalar(s.push(c)[0] as u32) + encode_utf8(s.push(c).drop_first()));
    if s.len() == 0 {
        assert(s.push(c).drop_first() =~= Seq::<char>::empty());
        assert(encode_utf8(Seq::<char>::empty()).len() == 0);
    } else {
        lemma_byte_len_push(s.drop_first(), c);
        assert(s.push(c).drop_first() =~= s.drop_first().push(c));
        assert(encode_utf8(s) == encode_scalar(s[0] as u32) + encode_utf8(s.drop_first()));
    }
}

/// The number of bytes of `c` in UTF-8.
fn char_width(c: char) -> (r: usize)
    ensures
        r == encode_scalar(c as u32).len(),
{
    proof { vstd::utf8::char_is_scalar(c); }
    let v = c as u32;
    if v <= 0x7F {
        1
    } else if v <= 0x7FF {
        2
    } else if v <= 0xFFFF {
        3
    } else {
        4
    }
}

/// The text split at its newlines: the lines that ended in a newline and are
/// longer than two bytes, and the unfinished last line.
pub open spec fn split_state(s: Seq<char>) -> (Seq<Seq<char>>, Seq<char>)
    decreases s.len(),
{
    if s.len() == 0 {
        (seq![], seq![])
    } else {
        let (ls, cur) = split_state(s.drop_last());
        if s.last() == '\n' {
            (if byte_len(cur) > 2 { ls.push(cur) } else { ls }, seq![])
        } else {
            (ls, cur.push(s.last()))
        }
    }
}

/// The lines of `s` (split at `\n`) that are longer than two bytes.
pub open spec fn kept_lines(s: Seq<char>) -> Seq<Seq<char>> {
    let (ls, cur) = split_state(s);
    if byte_len(cur) > 2 {
        ls.push(cur)
    } else {
        ls
    }
}

/// The characters that stand for a piece of side `side`.
pub open spec fn is_side_char(c: char, side: int) -> bool {
    if side == 1 {
        c == 'W' || c == 'w'
    } else {
        c == 'B' || c == 'b'
    }
}

/// The pieces of side `side` among the first `n` cells of the 8x8 text `l`,
/// read row by row: a capital letter is a king.
pub open spec fn read_pieces(l: Seq<Seq<char>>, side: int, n: int) -> Seq<Checker>
    decreases n,
{
    if n <= 0 {
        seq![]
    } else {
        let i = (n - 1) / 8;
        let j = (n - 1) % 8;
        let c = l[i][j];
        read_pieces(l, side, n - 1) + if is_side_char(c, side) {
            seq![Checker { x: j as usize, y: i as usize, king: c == 'W' || c == 'B', live: true }]
        } else {
            seq![]
        }
    }
}

/// The army of side `side` read from `l`, padded with pieces off the board.
pub open spec fn read_army(l: Seq<Seq<char>>, side: int) -> Seq<Checker> {
    let ps = read_pieces(l, side, 64);
    Seq::new(12, |k: int| if k < ps.len() { ps[k] } else { Checker { x: 0, y: 0, king: false, live: false } })
}

/// The text describes a board: at least eight kept lines of at least eight
/// characters, with at most twelve pieces of each side on the first eight.
pub open spec fn readable(text: Seq<char>) -> bool {
    let l = kept_lines(text);
    &&& l.len() >= 8
    &&& forall|i: int| 0 <= i < 8 ==> #[trigger] l[i].len() >= 8
    &&& read_pieces(l, 1, 64).len() <= 12
    &&& read_pieces(l, -1, 64).len() <= 12
}

/// The characters that `cell_char` gives are ASCII and none is a newline.
pub open spec fn plain_char(c: char) -> bool {
    (c as u32) < 0x80 && c != '\n'
}

proof fn lemma_split_append(b: Seq<char>, w: Seq<char>)
    requires
        split_state(b).1 == Seq::<char>::empty(),
        forall|i: int| 0 <= i < w.len() ==> #[trigger] w[i] != '\n',
    ensures
        split_state(b + w) == (split_state(b).0, w),
    decreases w.len(),
{
    if w.len() == 0 {
        assert(b + w =~= b);
    } else {
        let w1 = w.drop_last();
        lemma_split_append(b, w1);
        assert((b + w).drop_last() =~= b + w1);
        assert((b + w).last() == w.last());
        assert(w1.push(w.last()) =~= w);
    }
}

proof fn lemma_ascii_len(w: Seq<char>)
    requires
        forall|i: int| 0 <= i < w.len() ==> plain_char(#[trigger] w[i]),
    ensures
        byte_len(w) == w.len(),
    decreases w.len(),
{
    if w.len() == 0 {
        assert(encode_utf8(w) == Seq::<u8>::empty());
    } else {
        let w1 = w.drop_last();
        lemma_ascii_len(w1);
        lemma_byte_len_push(w1, w.last());
        assert(w1.push(w.last()) =~= w);
        assert(plain_char(w[w.len() - 1]));
    }
}

proof fn lemma_row_plain(p: Position, i: int)
    ensures
        row_text(p, i).len() == 8,
        forall|j: int| 0 <= j < 8 ==> plain_char(#[trigger] row_text(p, i)[j]),
{
}

/// The board text splits into its eight rows.
proof fn lemma_split_board(p: Position, n: int)
    requires
        0 <= n <= 8,
    ensures
        split_state(board_text(p, n)) == (Seq::new(n as nat, |i: int| row_text(p, i)), Seq::<char>::empty()),
    decreases n,
{
    if n == 0 {
        assert(split_state(board_text(p, 0)) == (Seq::<Seq<char>>::empty(), Seq::<char>::empty()));
        assert(Seq::new(0, |i: int| row_text(p, i)) =~= Seq::<Seq<char>>::empty());
    } else {
        lemma_split_board(p, n - 1);
        let b = board_text(p, n - 1);
        let row = row_text(p, n - 1);
        lemma_row_plain(p, n - 1);
        lemma_split_append(b, row);
        lemma_ascii_len(row);
        let t = board_text(p, n);
        assert(t.drop_last() =~= b + row);
        assert(t.last() == '\n');
        assert(Seq::new((n - 1) as nat, |i: int| row_text(p, i)).push(row) =~= Seq::new(n as nat, |i: int| row_text(p, i)));
    }
}

/// The lines `read` finds in the board text are its eight rows.
pub(crate) proof fn lemma_kept_board(p: Position)
    ensures
        kept_lines(board_text(p, 8)) == Seq::new(8, |i: int| row_text(p, i)),
{
    lemma_split_board(p, 8);
    assert(byte_len(Seq::<char>::empty()) == 0) by {
        assert(encode_utf8(Seq::<char>::empty()) == Seq::<u8>::empty());
    }
}

proof fn lemma_read_pieces_mono(l: Seq<Seq<char>>, side: int, n: int, m: int)
    requires
        0 <= n <= m,
    ensures
        read_pieces(l, side, n).len() <= read_pieces(l, side, m).len(),
        read_pieces(l, side, m).subrange(0, read_pieces(l, side, n).len() as int) == read_pieces(l, side, n),
    decreases m - n,
{
    if n < m {
        lemma_read_pieces_mono(l, side, n, m - 1);
        let a = read_pieces(l, side, n);
        let b = read_pieces(l, side, m - 1);
        let c = read_pieces(l, side, m);
        assert(c.subrange(0, b.len() as int) =~= b);
        assert(c.subrange(0, a.len() as int) =~= b.subrange(0, a.len() as int));
    } else {
        assert(read_pieces(l, side, m).subrange(0, read_pieces(l, side, m).len() as int) =~= read_pieces(l, side, m));
    }
}

/// A copy of a cell cache.
pub fn clone_cache(f: &[[isize; 8]; 8]) -> (res: Box<[[isize; 8]; 8]>)
    ensures
        *res == *f,
{
    let mut res: [[isize; 8]; 8] = [[0; 8]; 8];
    for i in 0..8
        invariant
            forall|r: int| 0 <= r < i ==> #[trigger] res[r] == f[r],
    {
        for j in 0..8
            invariant
                i < 8,
                forall|r: int| 0 <= r < i ==> #[trigger] res[r] == f[r],
                forall|c: int| 0 <= c < j ==> #[trigger] res[i as int][c] == f[i as int][c],
        {
            res[i][j] = f[i][j];
        }
        assert(res[i as int] =~= f[i as int]);
    }
    assert(res =~= *f);
    Box::new(res)
}

impl Clone for Field {
    fn clone(&self) -> (res: Field)
        ensures
            res@ == self@,
    {
        let mut white = [Checker { x: 0, y: 0, king: false, live: true };12];
        let mut black = [Checker { x: 0, y: 0, king: false, live: true };12];
        for i in 0..12
            invariant
                forall|j: int| 0 <= j < i ==> #[trigger] white@[j] == self.white@[j],
                forall|j: int| 0 <= j < i ==> #[trigger] black@[j] == self.black@[j],
        {
            white[i] = self.white[i];
            black[i] = self.black[i];
        }
        assert(white@ =~= self.white@);
        assert(black@ =~= self.black@);
        Field { white: Box::new(white), black: Box::new(black) }
    }
}

impl Field {
    /// A board with no piece on it.
    pub fn empty() -> (res: Field)
        ensures
            forall|i: int| 0 <= i < 12 ==> #[trigger] res@.white_at(i) == (Checker { x: 0, y: 0, king: false, live: false }),
            forall|i: int| 0 <= i < 12 ==> #[trigger] res@.black_at(i) == (Checker { x: 0, y: 0, king: false, live: false }),
    {
        Field {
            white: Box::new([Checker { x: 0, y: 0, king: false, live: false };12]),
            black: Box::new([Checker { x: 0, y: 0, king: false, live: false };12]),
        }
    }

    /// The starting position.
    pub fn new() -> (res: Field)
        ensures
            forall|i: int| 0 <= i < 12 ==> #[trigger] res@.white_at(i) == initial_piece(1, i),
            forall|i: int| 0 <= i < 12 ==> #[trigger] res@.black_at(i) == initial_piece(-1, i),
    {
        let mut white = [Checker { x: 0, y: 0, king: false, live: true };12];
        let mut black = [Checker { x: 0, y: 0, king: false, live: true };12];
        mk_line(&mut white, 0, 5, true);
        mk_line(&mut white, 4, 6, false);
        mk_line(&mut white, 8, 7, true);
        mk_line(&mut black, 0, 0, false);
        mk_line(&mut black, 4, 1, true);
        mk_line(&mut black, 8, 2, false);
        Field { white: Box::new(white), black: Box::new(black) }
    }

    /// The piece on column `x`, row `y` and its side (1 white, -1 black).
    pub fn get_ch(&self, x: usize, y: usize) -> (r: Option<(&Checker, isize)>)
        ensures
            match self@.locate(x as int, y as int) {
                None => r is None,
                Some((i, side)) => r matches Some((c, s)) && s == side && *c == self@.piece(i, side),
            },
    {
        for i in 0..12
            invariant
                self@.locate(x as int, y as int) == self@.locate_from(i as int, x as int, y as int),
        {
            let ch: &Checker = &self.white[i];
            if ch.live && ch.x == x && ch.y == y {
                return Some((ch, 1));
            }
            let ch: &Checker = &self.black[i];
            if ch.live && ch.x == x && ch.y == y {
                return Some((ch, -1));
            }
        }
        None
    }

    /// The piece on column `x`, row `y`, for changing it, and its side.
    pub fn get_ch_mut(&mut self, x: usize, y: usize) -> (r: Option<(&mut Checker, isize)>)
        ensures
            match old(self)@.locate(x as int, y as int) {
                None => r is None && *final(self) == *old(self),
                Some((i, side)) => r matches Some((c, s)) && s == side && *c == old(self)@.piece(i, side) && if side == 1 {
                    &&& final(self).white@ == old(self).white@.update(i, *final(c))
                    &&& final(self).black@ == old(self).black@
                } else {
                    &&& final(self).black@ == old(self).black@.update(i, *final(c))
                    &&& final(self).white@ == old(self).white@
                },
            },
    {
        for i in 0..12
            invariant
                *self == *old(self),
                self@.locate(x as int, y as int) == self@.locate_from(i as int, x as int, y as int),
        {
            if self.white[i].live && self.white[i].x == x && self.white[i].y == y {
                let ch: &mut Checker = &mut self.white[i];
                return Some((ch, 1));
            }
            if self.black[i].live && self.black[i].x == x && self.black[i].y == y {
                let ch: &mut Checker = &mut self.black[i];
                return Some((ch, -1));
            }
        }
        None
    }

    /// Takes the piece on column `x`, row `y` off the board.
    pub fn kill(&mut self, x: usize, y: usize)
        requires
            old(self)@.locate(x as int, y as int) is Some,
        ensures
            match old(self)@.locate(x as int, y as int) {
                Some((i, side)) => if side == 1 {
                    &&& final(self).white@ == old(self).white@.update(i, Checker { live: false, ..old(self)@.white_at(i) })
                    &&& final(self).black@ == old(self).black@
                } else {
                    &&& final(self).black@ == old(self).black@.update(i, Checker { live: false, ..old(self)@.black_at(i) })
                    &&& final(self).white@ == old(self).white@
                },
                None => false,
            },
    {
        for i in 0..12
            invariant
                *self == *old(self),
                self@.locate(x as int, y as int) == self@.locate_from(i as int, x as int, y as int),
                self@.locate(x as int, y as int) is Some,
        {
            if self.white[i].live && self.white[i].x == x && self.white[i].y == y {
                self.white[i].live = false;
                return;
            }
            if self.black[i].live && self.black[i].x == x && self.black[i].y == y {
                self.black[i].live = false;
                return;
            }
        }
    }

    /// The board as eight lines of text (see `cell_char`).
    pub fn show(&self) -> (res: String)
        requires
            self@.in_bounds(),
        ensures
            res@ == board_text(self@, 8),
    {
        let cache = self.cache_field();
        proof { self@.lemma_codes(); }
        let mut res = String::new();
        for i in 0..8
            invariant
                self@.in_bounds(),
                forall|y: int, x: int| 0 <= y < 8 && 0 <= x < 8 ==> #[trigger] cache[y][x] == self@.cell(x, y),
                forall|y: int, x: int| 0 <= y < 8 && 0 <= x < 8 ==> valid_code(#[trigger] self@.cell(x, y)),
                res@ == board_text(self@, i as int),
        {
            let mut line = String::new();
            for j in 0..8
                invariant
                    i < 8,
                    forall|y: int, x: int| 0 <= y < 8 && 0 <= x < 8 ==> #[trigger] cache[y][x] == self@.cell(x, y),
                    forall|y: int, x: int| 0 <= y < 8 && 0 <= x < 8 ==> valid_code(#[trigger] self@.cell(x, y)),
                    line@ == row_text(self@, i as int).take(j as int),
            {
                let sh = cell_str(cache[i][j], i, j);
                line.append(sh);
                assert(line@ =~= row_text(self@, i as int).take(j + 1));
            }
            res.append(line.as_str());
            proof { reveal_strlit("\n"); }
            res.append("\n");
            assert(row_text(self@, i as int).take(8) =~= row_text(self@, i as int));
            assert(res@ =~= board_text(self@, i + 1));
        }
        res
    }

    /// The board with a cursor on row `ci`, column `cj` (see `crd_text`):
    /// `grabbed` tells whether a piece is held, `mark` lists cells (column,
    /// row) to show as `@`, and `cross` a cell to show as `x`.
    pub fn show_crd(&self, ci: usize, cj: usize, grabbed: bool, mark: &Vec<(usize, usize)>, cross: Option<(usize, usize)>) -> (res: String)
        requires
            self@.in_bounds(),
            ci as isize > isize::MIN,
            cj as isize > isize::MIN,
        ensures
            res@ == crd_text(self@, 8, ci as isize as int, cj as isize as int, grabbed, mark@, cross),
    {
        let cache = self.cache_field();
        proof { self@.lemma_codes(); }
        let ci_s = ci as isize;
        let cj_s = cj as isize;
        let ghost ci_v = ci_s as int;
        let ghost cj_v = cj_s as int;
        let mut res = String::new();
        let i: isize = -1;
        for j in 0..8
            invariant
                ci_s > isize::MIN,
                res@ == vlim_row(-1, j as int, ci_v, cj_v),
                ci_v == ci_s,
                cj_v == cj_s,
                i == -1,
        {
            res.append(vlim(i, j as isize, ci_s, cj_s));
            assert(res@ =~= vlim_row(-1, j + 1, ci_v, cj_v));
        }
        proof { reveal_strlit("\n"); }
        res.append("\n");
        for i in 0..8
            invariant
                ci_s > isize::MIN,
                cj_s > isize::MIN,
                ci_v == ci_s,
                cj_v == cj_s,
                forall|y: int, x: int| 0 <= y < 8 && 0 <= x < 8 ==> #[trigger] cache[y][x] == self@.cell(x, y),
                forall|y: int, x: int| 0 <= y < 8 && 0 <= x < 8 ==> valid_code(#[trigger] self@.cell(x, y)),
                res@ == crd_text(self@, i as int, ci_v, cj_v, grabbed, mark@, cross),
        {
            let mut line = String::new();
            line.append(hlim(i as isize, -1, ci_s, cj_s, grabbed));
            let mut suff_line = String::new();
            for j in 0..8
                invariant
                    i < 8,
                    ci_s > isize::MIN,
                    cj_s > isize::MIN,
                    ci_v == ci_s,
                    cj_v == cj_s,
                    forall|y: int, x: int| 0 <= y < 8 && 0 <= x < 8 ==> #[trigger] cache[y][x] == self@.cell(x, y),
                    forall|y: int, x: int| 0 <= y < 8 && 0 <= x < 8 ==> valid_code(#[trigger] self@.cell(x, y)),
                    line@ == crd_line(self@, i as int, j as int, ci_v, cj_v, grabbed, mark@, cross),
                    suff_line@ == vlim_row(i as int, j as int, ci_v, cj_v),
            {
                let mut flag = false;
                let mut crossf = false;
                match cross {
                    Some((x, y)) => crossf = x == j && y == i,
                    _ => (),
                }
                if !crossf {
                    for k in 0..mark.len()
                        invariant
                            flag <==> exists|t: int| 0 <= t < k && (#[trigger] mark@[t]).0 == j && mark@[t].1 == i,
                    {
                        let (j1, i1) = mark[k];
                        flag = flag || (i == i1 && j == j1);
                    }
                }
                let sh: &str = if crossf {
                    proof { reveal_strlit("x"); }
                    "x"
                } else if flag {
                    proof { reveal_strlit("@"); }
                    "@"
                } else {
                    cell_str(cache[i][j], i, j)
                };
                assert(sh@ == seq![crd_char(self@, i as int, j as int, mark@, cross)]);
                line.append(sh);
                line.append(hlim(i as isize, j as isize, ci_s, cj_s, grabbed));
                suff_line.append(vlim(i as isize, j as isize, ci_s, cj_s));
                assert(line@ =~= crd_line(self@, i as int, j + 1, ci_v, cj_v, grabbed, mark@, cross));
                assert(suff_line@ =~= vlim_row(i as int, j + 1, ci_v, cj_v));
            }
            res.append(line.as_str());
            proof { reveal_strlit("\n"); }
            res.append("\n");
            res.append(suff_line.as_str());
            res.append("\n");
            assert(res@ =~= crd_text(self@, i + 1, ci_v, cj_v, grabbed, mark@, cross));
        }
        res
    }

    /// Reads a board drawn as text, one row per line (see `show`): `w`/`W` a
    /// white man/king, `b`/`B` a black one, anything else an empty cell. Lines
    /// of two bytes or fewer are skipped; the first eight others are the rows.
    /// The pieces of each side are numbered in reading order.
    pub fn read(text: &str) -> (res: Field)
        requires
            readable(text@),
        ensures
            res@.white == read_army(kept_lines(text@), 1),
            res@.black == read_army(kept_lines(text@), -1),
    {
        let mut white = [Checker { x: 0, y: 0, king: false, live: false };12];
        let mut black = [Checker { x: 0, y: 0, king: false, live: false };12];
        let mut lines: Vec<Vec<char>> = Vec::new();
        let mut cur: Vec<char> = Vec::new();
        let mut cur_len: usize = 0;
        let ghost mut gl: Seq<Seq<char>> = seq![];
        let ghost mut seen: Seq<char> = seq![];
        for c in it: text.chars()
            invariant
                seen == it.seq().take(it.index() as int),
                (gl, cur@) == split_state(seen),
                lines@.len() == gl.len(),
                forall|k: int| 0 <= k < gl.len() ==> #[trigger] lines@[k]@ == gl[k],
                cur_len == if byte_len(cur@) > 2 { 3 } else { byte_len(cur@) },
        {
            let ghost before = seen;
            proof { seen = seen.push(c); }
            assert(seen.drop_last() =~= before);
            if c == '\n' {
                if cur_len > 2 {
                    proof { gl = gl.push(cur@); }
                    lines.push(cur);
                }
                cur = Vec::new();
                cur_len = 0;
                assert(byte_len(Seq::<char>::empty()) == 0);
            } else {
                proof { lemma_byte_len_push(cur@, c); }
                let w = char_width(c);
                cur.push(c);
                cur_len = if cur_len + w > 2 { 3 } else { cur_len + w };
            }
        }
        assert(seen =~= text@);
        if cur_len > 2 {
            proof { gl = gl.push(cur@); }
            lines.push(cur);
        }
        let ghost l = kept_lines(text@);
        assert(gl == l);
        let mut white_n: usize = 0;
        let mut black_n: usize = 0;
        proof {
            lemma_read_pieces_mono(l, 1, 0, 64);
            lemma_read_pieces_mono(l, -1, 0, 64);
        }
        for i in 0..8
            invariant
                lines@.len() == l.len(),
                forall|k: int| 0 <= k < l.len() ==> #[trigger] lines@[k]@ == l[k],
                readable(text@),
                l == kept_lines(text@),
                white_n == read_pieces(l, 1, i * 8).len(),
                black_n == read_pieces(l, -1, i * 8).len(),
                forall|k: int| 0 <= k < 12 ==> #[trigger] white@[k] == if k < white_n { read_pieces(l, 1, i * 8)[k] } else { Checker { x: 0, y: 0, king: false, live: false } },
                forall|k: int| 0 <= k < 12 ==> #[trigger] black@[k] == if k < black_n { read_pieces(l, -1, i * 8)[k] } else { Checker { x: 0, y: 0, king: false, live: false } },
        {
            let line: &Vec<char> = &lines[i];
            assert(line@ == l[i as int]);
            for j in 0..8
                invariant
                    i < 8,
                    line@ == l[i as int],
                    readable(text@),
                    l == kept_lines(text@),
                    white_n == read_pieces(l, 1, i * 8 + j).len(),
                    black_n == read_pieces(l, -1, i * 8 + j).len(),
                    forall|k: int| 0 <= k < 12 ==> #[trigger] white@[k] == if k < white_n { read_pieces(l, 1, i * 8 + j)[k] } else { Checker { x: 0, y: 0, king: false, live: false } },
                    forall|k: int| 0 <= k < 12 ==> #[trigger] black@[k] == if k < black_n { read_pieces(l, -1, i * 8 + j)[k] } else { Checker { x: 0, y: 0, king: false, live: false } },
            {
                let ghost n = i * 8 + j;
                assert((n + 1 - 1) / 8 == i && (n + 1 - 1) % 8 == j);
                proof {
                    lemma_read_pieces_mono(l, 1, n + 1, 64);
                    lemma_read_pieces_mono(l, -1, n + 1, 64);
                }
                let ch = line[j];
                assert(ch == l[i as int][j as int]);
                match ch {
                    'W' => {
                        white[white_n] = Checker { x: j, y: i, king: true, live: true };
                        white_n += 1;
                    },
                    'w' => {
                        let mut c = white[white_n];
                        c.live = true;
                        c.x = j;
                        c.y = i;
                        white[white_n] = c;
                        white_n += 1;
                    },
                    'b' => {
                        let mut c = black[black_n];
                        c.live = true;
                        c.x = j;
                        c.y = i;
                        black[black_n] = c;
                        black_n += 1;
                    },
                    'B' => {
                        black[black_n] = Checker { x: j, y: i, king: true, live: true };
                        black_n += 1;
                    },
                    _ => (),
                }
            }
        }
        assert(white@ =~= read_army(l, 1));
        assert(black@ =~= read_army(l, -1));
        Field { white: Box::new(white), black: Box::new(black) }
    }

    /// Builds the 8x8 cell cache, indexed `[row][column]`.
    pub fn cache_field(&self) -> (res: Box<[[isize; 8]; 8]>)
        requires
            self@.in_bounds(),
        ensures
            forall|y: int, x: int| 0 <= y < 8 && 0 <= x < 8 ==> #[trigger] res[y][x] == self@.cell(x, y),
            grid(*res) == self@.board(),
    {
        let mut res: [[isize; 8]; 8] = [[0; 8]; 8];
        for i in 0..12
            invariant
                self@.in_bounds(),
                forall|y: int, x: int| 0 <= y < 8 && 0 <= x < 8 ==> #[trigger] res[y][x] == self@.cell_upto(i as int, x, y),
        {
            let w = self.white[i];
            if w.live {
                assert(checker_in_bounds(self@.white_at(i as int)));
                res[w.y][w.x] = if w.king { 2 } else { 1 };
            }
            let b = self.black[i];
            if b.live {
                assert(checker_in_bounds(self@.black_at(i as int)));
                res[b.y][b.x] = if b.king { -2 } else { -1 };
            }
        }
        assert(grid(res) =~~= self@.board());
        Box::new(res)
    }
}

} // verus!
