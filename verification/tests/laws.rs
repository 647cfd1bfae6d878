use chess::field::{Checker, Field};
use chess::solve::{all_moves, capacity};

fn piece(x: usize, y: usize, king: bool) -> Checker {
    Checker { x: x, y: y, king: king, live: true }
}

fn board(white: &[Checker], black: &[Checker]) -> Field {
    let mut f = Field::empty();
    for (i, c) in white.iter().enumerate() {
        f.white[i] = *c;
    }
    for (i, c) in black.iter().enumerate() {
        f.black[i] = *c;
    }
    f
}

fn mirror(f: &Field) -> Field {
    let mut m = Field::empty();
    for i in 0..12 {
        let b = f.black[i];
        let w = f.white[i];
        m.white[i] = Checker { x: b.x, y: if b.live { 7 - b.y } else { b.y }, king: b.king, live: b.live };
        m.black[i] = Checker { x: w.x, y: if w.live { 7 - w.y } else { w.y }, king: w.king, live: w.live };
    }
    m
}

#[test]
fn man_chain_cannot_be_extended() {
    let f = board(&[piece(0, 7, false)], &[piece(1, 6, false), piece(3, 4, false), piece(5, 4, false), piece(3, 2, false)]);
    let c = f.cache_field();
    let chains = all_moves(0, 7, 1, false, &c);
    assert!(!chains.is_empty());
    for (nx, ny, k) in chains.iter() {
        assert!(!k.is_empty());
        let mut c2 = *c;
        c2[7][0] = 0;
        for (kx, ky) in k.iter() {
            c2[*ky][*kx] = 0;
        }
        c2[*ny][*nx] = 1;
        for m in all_moves(*nx, *ny, 1, false, &c2).iter() {
            assert!(m.2.is_empty());
        }
    }
}

#[test]
fn cursor_display_shows_board_cells() {
    let f = board(&[piece(1, 5, false), piece(2, 0, true)], &[piece(4, 2, false), piece(7, 7, true)]);
    let plain: Vec<Vec<char>> = f.show().lines().map(|l| l.chars().collect()).collect();
    let marks = vec![(0usize, 4usize), (6usize, 6usize)];
    let shown = f.show_crd(3, 3, true, &marks, Some((2, 0)));
    let lines: Vec<Vec<char>> = shown.lines().map(|l| l.chars().collect()).collect();
    for r in 0..8 {
        for c in 0..8 {
            let expected = if (c, r) == (2, 0) {
                'x'
            } else if marks.contains(&(c, r)) {
                '@'
            } else {
                plain[r][c]
            };
            assert_eq!(lines[2 * r + 1][2 * c + 1], expected);
        }
    }
}

#[test]
fn read_gives_back_shown_board() {
    let f = board(
        &[piece(6, 1, false), piece(1, 7, true), piece(3, 3, false)],
        &[piece(0, 6, true), piece(5, 0, false), piece(2, 4, false)],
    );
    let g = Field::read(&f.show());
    assert_eq!(*g.cache_field(), *f.cache_field());
    assert_eq!(g.show(), f.show());
    let h = Field::read(&Field::new().show());
    assert_eq!(*h.cache_field(), *Field::new().cache_field());
}

#[test]
fn capacity_is_antisymmetric() {
    let boards = vec![
        Field::new(),
        board(&[piece(2, 5, false), piece(6, 5, false)], &[piece(5, 2, false)]),
        board(&[piece(2, 5, true)], &[piece(5, 2, false), piece(1, 0, true)]),
        board(&[piece(4, 4, false)], &[piece(0, 7, false)]),
        board(&[piece(0, 0, false)], &[piece(4, 4, false)]),
        board(&[piece(1, 5, false), piece(3, 5, false)], &[piece(0, 0, false), piece(2, 0, false), piece(4, 0, false)]),
    ];
    for f in boards.iter() {
        assert_eq!(capacity(&mirror(f)), -capacity(f));
    }
}
