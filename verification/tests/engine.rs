use chess::ai::{best_moves, next_move, next_move_with, Color, TNode};
use chess::field::{Checker, Field};
use chess::solve::{
    all_moves, capacity, capacity_black, capacity_white, moves, CHECKER_DIFF_PRICE, KING_PRICE, NEAR_TO_KING_PRICE,
    WIN_PRICE,
};

fn piece(x: usize, y: usize, king: bool) -> Checker {
    Checker { x: x, y: y, king: king, live: true }
}

type Plain = Vec<(usize, usize, Vec<(usize, usize)>)>;

fn plain(v: Vec<(usize, usize, Box<Vec<(usize, usize)>>)>) -> Plain {
    v.into_iter().map(|(x, y, k)| (x, y, *k)).collect()
}

fn plain_move(m: (usize, usize, usize, usize, Box<Vec<(usize, usize)>>)) -> (usize, usize, usize, usize, Vec<(usize, usize)>) {
    (m.0, m.1, m.2, m.3, *m.4)
}

fn board(white: &[Checker], black: &[Checker]) -> Field {
    let mut f = Field::empty();
    for (i, c) in white.iter().enumerate() {
        f.white[i] = *c;
    }
    for (i, c) in black.iter().enumerate() {
        f.black[i] = *c;
    }
    f
}

fn moves_of(f: &Field, x: usize, y: usize) -> Plain {
    let (c, _) = f.get_ch(x, y).expect("a piece");
    let c = *c;
    plain(moves(&c, f))
}

#[test]
fn man_steps_forward() {
    let f = board(&[piece(2, 5, false)], &[piece(5, 0, false)]);
    assert_eq!(moves_of(&f, 2, 5), vec![(1, 4, vec![]), (3, 4, vec![])]);
    assert_eq!(moves_of(&f, 5, 0), vec![(4, 1, vec![]), (6, 1, vec![])]);
}

#[test]
fn man_on_edge_has_one_step() {
    let f = board(&[piece(0, 5, false)], &[piece(7, 2, false)]);
    assert_eq!(moves_of(&f, 0, 5), vec![(1, 4, vec![])]);
    assert_eq!(moves_of(&f, 7, 2), vec![(6, 3, vec![])]);
}

#[test]
fn blocked_man_has_no_move() {
    let f = Field::new();
    assert_eq!(moves_of(&f, 1, 6), vec![]);
    assert_eq!(moves_of(&f, 0, 5), vec![(1, 4, vec![])]);
    assert_eq!(moves_of(&f, 2, 5), vec![(1, 4, vec![]), (3, 4, vec![])]);
    assert_eq!(moves_of(&f, 7, 2), vec![(6, 3, vec![])]);
}

#[test]
fn capture_replaces_steps() {
    let f = board(&[piece(2, 5, false)], &[piece(3, 4, false)]);
    assert_eq!(moves_of(&f, 2, 5), vec![(4, 3, vec![(3, 4)])]);
}

#[test]
fn man_captures_backwards() {
    let f = board(&[piece(2, 3, false)], &[piece(3, 4, false)]);
    assert_eq!(moves_of(&f, 2, 3), vec![(4, 5, vec![(3, 4)])]);
}

#[test]
fn capture_needs_free_landing() {
    let f = board(&[piece(2, 5, false)], &[piece(3, 4, false), piece(4, 3, false)]);
    assert_eq!(moves_of(&f, 2, 5), vec![(1, 4, vec![])]);
}

#[test]
fn multi_jump_man() {
    let f = board(&[piece(0, 7, false)], &[piece(1, 6, false), piece(3, 4, false)]);
    assert_eq!(moves_of(&f, 0, 7), vec![(4, 3, vec![(1, 6), (3, 4)])]);
}

#[test]
fn king_slides() {
    let f = board(&[piece(0, 7, true)], &[]);
    assert_eq!(
        moves_of(&f, 0, 7),
        vec![
            (1, 6, vec![]),
            (2, 5, vec![]),
            (3, 4, vec![]),
            (4, 3, vec![]),
            (5, 2, vec![]),
            (6, 1, vec![]),
            (7, 0, vec![]),
        ]
    );
}

#[test]
fn king_slide_order() {
    let f = board(&[piece(3, 3, true), piece(1, 1, false), piece(5, 5, false)], &[]);
    assert_eq!(
        moves_of(&f, 3, 3),
        vec![(4, 4, vec![]), (4, 2, vec![]), (5, 1, vec![]), (6, 0, vec![]), (2, 4, vec![]), (1, 5, vec![]), (0, 6, vec![]), (2, 2, vec![])]
    );
}

#[test]
fn king_long_capture() {
    let f = board(&[piece(0, 7, true)], &[piece(2, 5, false)]);
    assert_eq!(
        moves_of(&f, 0, 7),
        vec![(3, 4, vec![(2, 5)]), (4, 3, vec![(2, 5)]), (5, 2, vec![(2, 5)]), (6, 1, vec![(2, 5)]), (7, 0, vec![(2, 5)])]
    );
}

#[test]
fn king_capture_continues() {
    let f = board(&[piece(0, 7, true)], &[piece(2, 5, false), piece(5, 4, false)]);
    assert_eq!(moves_of(&f, 0, 7), vec![(6, 5, vec![(2, 5), (5, 4)]), (7, 6, vec![(2, 5), (5, 4)])]);
}

#[test]
fn king_cannot_jump_two() {
    let f = board(&[piece(0, 7, true)], &[piece(2, 5, false), piece(3, 4, false)]);
    assert_eq!(moves_of(&f, 0, 7), vec![(1, 6, vec![])]);
}

#[test]
fn all_moves_on_cache() {
    let f = board(&[piece(2, 5, false)], &[piece(3, 4, false)]);
    let c = f.cache_field();
    assert_eq!(plain(all_moves(2, 5, 1, false, &c)), vec![(4, 3, vec![(3, 4)])]);
    assert_eq!(plain(all_moves(3, 4, -1, false, &c)), vec![(1, 6, vec![(2, 5)])]);
}

#[test]
fn start_position_is_even() {
    let f = Field::new();
    assert_eq!(capacity(&f), 0);
    assert_eq!(capacity_white(&f), 0);
    assert_eq!(capacity_black(&f), 0);
}

#[test]
fn capacity_counts_material_and_rows() {
    let f = board(&[piece(2, 5, false), piece(6, 5, false)], &[piece(5, 2, false)]);
    assert_eq!(capacity(&f), 1000 + 40 - 20);
    assert_eq!(capacity_white(&f), 1020);
    assert_eq!(capacity_black(&f), -1020);
}

#[test]
fn capacity_counts_kings() {
    let f = board(&[piece(2, 5, true)], &[piece(5, 2, false), piece(1, 0, true)]);
    assert_eq!(capacity(&f), -1000 + KING_PRICE - 2 * NEAR_TO_KING_PRICE - KING_PRICE);
}

#[test]
fn capacity_rounds_toward_zero() {
    let w = [piece(1, 5, false), piece(3, 5, false)];
    let b = [piece(0, 0, false), piece(2, 0, false), piece(4, 0, false)];
    let f = board(&w, &b);
    assert_eq!(capacity(&f), -666 + 40);
    let f = board(&[piece(1, 5, false), piece(3, 5, false), piece(5, 5, false)], &[piece(0, 0, false), piece(2, 0, false)]);
    assert_eq!(capacity(&f), 666 + 60);
}

#[test]
fn capacity_wins_and_losses() {
    let f = board(&[piece(4, 4, false)], &[piece(0, 7, false)]);
    assert_eq!(capacity(&f), WIN_PRICE + 1);
    let f = board(&[piece(0, 0, false)], &[piece(4, 4, false)]);
    assert_eq!(capacity(&f), -(WIN_PRICE + 1));
    let f = board(&[], &[piece(4, 4, false)]);
    assert_eq!(capacity(&f), -(WIN_PRICE + 1));
    let f = board(&[piece(4, 4, false)], &[]);
    assert_eq!(capacity(&f), WIN_PRICE + 1);
    let f = Field::empty();
    assert_eq!(capacity(&f), WIN_PRICE + 1);
}

#[test]
fn capacity_matches_float_balance() {
    let start = Field::new();
    for w in 1..=12usize {
        for b in 1..=12usize {
            let mut f = Field::new();
            for i in w..12 {
                f.white[i].live = false;
            }
            for i in b..12 {
                f.black[i].live = false;
            }
            let wlen = w as f32;
            let blen = b as f32;
            let diff = CHECKER_DIFF_PRICE as f32;
            let mut expected = ((wlen - blen) / wlen.max(blen) * diff) as isize;
            for i in 0..w {
                expected += (7 - start.white[i].y as isize) * NEAR_TO_KING_PRICE;
            }
            for i in 0..b {
                expected -= start.black[i].y as isize * NEAR_TO_KING_PRICE;
            }
            assert_eq!(capacity(&f), expected, "w = {}, b = {}", w, b);
        }
    }
}

#[test]
fn color_values() {
    assert_eq!(Color::White.to_isize(), 1);
    assert_eq!(Color::Black.to_isize(), -1);
    assert!(matches!(Color::from_isize(1), Some(Color::White)));
    assert!(matches!(Color::from_isize(-1), Some(Color::Black)));
    assert!(Color::from_isize(0).is_none());
    assert!(Color::from_isize(2).is_none());
    assert!(matches!(Color::White.neg(), Color::Black));
    assert!(matches!(Color::Black.neg(), Color::White));
    assert_eq!(Color::White.neg().neg().to_isize(), 1);
}

#[test]
fn forced_capture_is_chosen() {
    let f = board(&[piece(2, 5, false), piece(6, 5, false)], &[piece(3, 4, false), piece(7, 0, false)]);
    for depth in 0..4 {
        let best: Vec<_> = best_moves(&f, Color::White, depth, 1000).into_iter().map(plain_move).collect();
        assert_eq!(best, vec![(2, 5, 4, 3, vec![(3, 4)])]);
        let m = next_move(&f, Color::White, depth, 1000).map(plain_move);
        assert_eq!(m, Some((2, 5, 4, 3, vec![(3, 4)])));
        for r in 0..5 {
            let m = next_move_with(&f, Color::White, depth, 1000, r).map(plain_move);
            assert_eq!(m, Some((2, 5, 4, 3, vec![(3, 4)])));
        }
    }
}

#[test]
fn no_move_gives_none() {
    let f = board(&[piece(0, 0, false)], &[piece(7, 7, false)]);
    assert!(next_move(&f, Color::White, 3, 1000).is_none());
    assert!(next_move(&f, Color::Black, 3, 1000).is_none());
    assert!(best_moves(&f, Color::White, 3, 1000).is_empty());
    assert!(next_move_with(&f, Color::White, 3, 1000, 7).is_none());
    let f = Field::empty();
    assert!(next_move(&f, Color::White, 2, 1000).is_none());
}

#[test]
fn chosen_move_is_best() {
    let f = Field::new();
    let best: Vec<_> = best_moves(&f, Color::White, 2, 1000).into_iter().map(plain_move).collect();
    assert!(!best.is_empty());
    for r in 0..best.len() + 3 {
        let m = next_move_with(&f, Color::White, 2, 1000, r).map(plain_move).unwrap();
        assert_eq!(m, best[r % best.len()]);
    }
    let m = next_move(&f, Color::White, 2, 1000).map(plain_move).unwrap();
    assert!(best.contains(&m));
    for (x, y, nx, ny, k) in best {
        assert_eq!(y, 5);
        assert_eq!(ny, 4);
        assert!(nx + 1 == x || nx == x + 1);
        assert!(k.is_empty());
    }
}

#[test]
fn search_avoids_losing_piece() {
    // Stepping to (4, 4) lets the black man capture white's only piece.
    let f = board(&[piece(3, 5, false)], &[piece(5, 3, false)]);
    let best: Vec<_> = best_moves(&f, Color::White, 1, 1000).into_iter().map(plain_move).collect();
    assert_eq!(best, vec![(3, 5, 2, 4, vec![])]);
    // Without looking ahead both steps score the same.
    let best: Vec<_> = best_moves(&f, Color::White, 0, 1000).into_iter().map(plain_move).collect();
    assert_eq!(best, vec![(3, 5, 4, 4, vec![]), (3, 5, 2, 4, vec![])]);
}

#[test]
fn best_moves_reverse_order() {
    let f = board(&[piece(2, 5, false)], &[piece(7, 0, false)]);
    let best: Vec<_> = best_moves(&f, Color::White, 0, 1000).into_iter().map(plain_move).collect();
    assert_eq!(best, vec![(2, 5, 3, 4, vec![]), (2, 5, 1, 4, vec![])]);
}

#[test]
fn tree_node_accessors() {

    let leaf = TNode {
        x: 3,
        y: 2,
        nx: 2,
        ny: 3,
        killed: Box::new(vec![]),
        data: Field::empty(),
        self_cap: -40,
        max_on_way: None,
        step_color: -1,
        childs: vec![],
    };
    assert_eq!(leaf.max_val(), -40);
    assert!(leaf.max_child().is_none());
    let node = TNode {
        x: 2,
        y: 5,
        nx: 4,
        ny: 3,
        killed: Box::new(vec![(3, 4)]),
        data: Field::empty(),
        self_cap: 1000,
        max_on_way: Some((40, 0)),
        step_color: 1,
        childs: vec![Box::new(leaf)],
    };
    assert_eq!(node.max_val(), 40);
    assert_eq!(node.coords_from(), (2, 5));
    assert_eq!(node.coords_to(), (4, 3));
    let c = node.max_child().unwrap();
    assert_eq!(c.coords_from(), (3, 2));
    assert_eq!(c.max_val(), -40);
}
