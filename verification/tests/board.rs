use chess::field::{clone_cache, Checker, Field};

fn dead() -> Checker {
    Checker { x: 0, y: 0, king: false, live: false }
}

fn piece(x: usize, y: usize, king: bool) -> Checker {
    Checker { x: x, y: y, king: king, live: true }
}

fn same(a: &Checker, b: &Checker) -> bool {
    a.x == b.x && a.y == b.y && a.king == b.king && a.live == b.live
}

const START: &str = ".b.b.b.b\nb.b.b.b.\n.b.b.b.b\n . . . .\n. . . . \nw.w.w.w.\n.w.w.w.w\nw.w.w.w.\n";

#[test]
fn empty_board_has_no_pieces() {
    let f = Field::empty();
    for i in 0..12 {
        assert!(same(&f.white[i], &dead()));
        assert!(same(&f.black[i], &dead()));
    }
    assert_eq!(f.show(), "\n. . . . \n . . . .".repeat(4).trim_start().to_string() + "\n");
}

#[test]
fn new_board_layout() {
    let f = Field::new();
    let white_rows = [5usize, 6, 7];
    let black_rows = [0usize, 1, 2];
    for r in 0..3 {
        for k in 0..4 {
            let w = &f.white[r * 4 + k];
            assert_eq!(w.y, white_rows[r]);
            assert_eq!(w.x, if r == 1 { 2 * k + 1 } else { 2 * k });
            assert_eq!((w.x + w.y) % 2, 1);
            assert!(w.live && !w.king);
            let b = &f.black[r * 4 + k];
            assert_eq!(b.y, black_rows[r]);
            assert_eq!(b.x, if r == 1 { 2 * k } else { 2 * k + 1 });
            assert_eq!((b.x + b.y) % 2, 1);
            assert!(b.live && !b.king);
        }
    }
}

#[test]
fn new_board_shown() {
    assert_eq!(Field::new().show(), START);
}

#[test]
fn show_marks_kings() {
    let mut f = Field::empty();
    f.white[0] = piece(0, 0, true);
    f.black[3] = piece(7, 7, true);
    f.white[5] = piece(2, 2, false);
    f.black[0] = piece(5, 5, false);
    let s = f.show();
    let lines: Vec<&str> = s.lines().collect();
    assert_eq!(lines.len(), 8);
    assert_eq!(lines[0], "W . . . ");
    assert_eq!(lines[2], ". w . . ");
    assert_eq!(lines[5], " . . b .");
    assert_eq!(lines[7], " . . . B");
}

#[test]
fn cache_codes() {
    let mut f = Field::empty();
    f.white[0] = piece(1, 5, false);
    f.white[1] = piece(3, 5, true);
    f.black[0] = piece(0, 0, false);
    f.black[1] = piece(2, 0, true);
    f.black[2] = Checker { x: 4, y: 4, king: false, live: false };
    let c = f.cache_field();
    assert_eq!(c[5][1], 1);
    assert_eq!(c[5][3], 2);
    assert_eq!(c[0][0], -1);
    assert_eq!(c[0][2], -2);
    assert_eq!(c[4][4], 0);
    let mut n = 0;
    for row in c.iter() {
        for v in row.iter() {
            if *v != 0 {
                n += 1;
            }
        }
    }
    assert_eq!(n, 4);
}

#[test]
fn clone_cache_copies() {
    let f = Field::new();
    let c = f.cache_field();
    let d = clone_cache(&c);
    assert_eq!(*c, *d);
}

#[test]
fn clone_keeps_pieces() {
    let f = Field::new();
    let g = f.clone();
    for i in 0..12 {
        assert!(same(&f.white[i], &g.white[i]));
        assert!(same(&f.black[i], &g.black[i]));
    }
}

#[test]
fn get_ch_finds_sides() {
    let f = Field::new();
    match f.get_ch(0, 5) {
        Some((c, s)) => {
            assert_eq!(s, 1);
            assert!(same(c, &f.white[0]));
        }
        None => panic!("white piece expected"),
    }
    match f.get_ch(1, 0) {
        Some((c, s)) => {
            assert_eq!(s, -1);
            assert!(same(c, &f.black[0]));
        }
        None => panic!("black piece expected"),
    }
    assert!(f.get_ch(0, 0).is_none());
    assert!(f.get_ch(1, 1).is_none());
    assert!(f.get_ch(3, 3).is_none());
}

#[test]
fn get_ch_skips_dead_pieces() {
    let mut f = Field::empty();
    f.white[0] = Checker { x: 2, y: 2, king: false, live: false };
    assert!(f.get_ch(2, 2).is_none());
}

#[test]
fn get_ch_mut_changes_piece() {
    let mut f = Field::new();
    match f.get_ch_mut(1, 0) {
        Some((c, s)) => {
            assert_eq!(s, -1);
            c.king = true;
            c.y = 3;
        }
        None => panic!("black piece expected"),
    }
    assert!(f.black[0].king);
    assert_eq!(f.black[0].y, 3);
    assert!(f.get_ch_mut(4, 4).is_none());
}

#[test]
fn kill_takes_piece_off() {
    let mut f = Field::new();
    f.kill(0, 5);
    assert!(!f.white[0].live);
    assert_eq!(f.white[0].x, 0);
    assert_eq!(f.white[0].y, 5);
    assert!(f.get_ch(0, 5).is_none());
    f.kill(3, 2);
    assert!(!f.black[9].live);
    for i in 1..12 {
        assert!(f.white[i].live);
    }
}

#[test]
fn read_round_trip() {
    let f = Field::new();
    let g = Field::read(&f.show());
    for i in 0..12 {
        assert!(same(&f.white[i], &g.white[i]));
        assert!(same(&f.black[i], &g.black[i]));
    }
}

#[test]
fn read_skips_short_lines() {
    let text = "\n#.#.#.#.\n.#.#.#.#\n#.#.#.b.\n.#.#.b.#\n#.#.w.#.\n.#.#.#.#\n#.#.#.#.\n.#.w.#.w";
    let f = Field::read(text);
    assert!(same(&f.black[0], &piece(6, 2, false)));
    assert!(same(&f.black[1], &piece(5, 3, false)));
    assert!(same(&f.white[0], &piece(4, 4, false)));
    assert!(same(&f.white[1], &piece(3, 7, false)));
    assert!(same(&f.white[2], &piece(7, 7, false)));
    for i in 3..12 {
        assert!(!f.white[i].live);
    }
    for i in 2..12 {
        assert!(!f.black[i].live);
    }
}

#[test]
fn read_kings() {
    let text = "W.......\n........\n........\n........\n........\n........\n........\n.......B\n";
    let f = Field::read(text);
    assert!(same(&f.white[0], &piece(0, 0, true)));
    assert!(same(&f.black[0], &piece(7, 7, true)));
}

#[test]
fn show_crd_cursor() {
    let f = Field::empty();
    let s = f.show_crd(0, 0, false, &Vec::new(), None);
    let lines: Vec<&str> = s.lines().collect();
    assert_eq!(lines.len(), 17);
    assert_eq!(lines[0], "+v+-+-+-+-+-+-+-");
    assert_eq!(lines[1], ">.< |.| |.| |.| |");
    assert_eq!(lines[2], "+^+-+-+-+-+-+-+-");
    assert_eq!(lines[3], "| |.| |.| |.| |.|");
    assert_eq!(lines[4], "+-+-+-+-+-+-+-+-");
}

#[test]
fn show_crd_grabbed_marks_and_cross() {
    let mut f = Field::empty();
    f.white[0] = piece(1, 5, false);
    let marks = vec![(0usize, 4usize), (2usize, 4usize)];
    let s = f.show_crd(5, 1, true, &marks, Some((7, 7)));
    let lines: Vec<&str> = s.lines().collect();
    assert_eq!(lines[9], "|@| |@| |.| |.| |");
    assert_eq!(lines[10], "+-+v+-+-+-+-+-+-");
    assert_eq!(lines[11], "| (w) |.| |.| |.|");
    assert_eq!(lines[12], "+-+^+-+-+-+-+-+-");
    assert_eq!(lines[15], "| |.| |.| |.| |x|");
}
