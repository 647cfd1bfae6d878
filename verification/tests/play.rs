use chess::ai::Color;
use chess::field::{Checker, Field};
use chess::solve::WIN_PRICE;
use chess::ui::{ai_step, available_chess, game_state, move_line, redraw, redraw_from, select_line, user_grab, UiMessage};

fn piece(x: usize, y: usize, king: bool) -> Checker {
    Checker { x: x, y: y, king: king, live: true }
}

fn board(white: &[Checker], black: &[Checker]) -> Field {
    let mut f = Field::empty();
    for (i, c) in white.iter().enumerate() {
        f.white[i] = *c;
    }
    for (i, c) in black.iter().enumerate() {
        f.black[i] = *c;
    }
    f
}

fn chars(s: &str) -> Vec<char> {
    s.chars().collect()
}

#[test]
fn available_at_start() {
    let f = Field::new();
    assert_eq!(available_chess(&f, Color::White), vec![(0, 5), (2, 5), (4, 5), (6, 5)]);
    assert_eq!(available_chess(&f, Color::Black), vec![(1, 2), (3, 2), (5, 2), (7, 2)]);
}

#[test]
fn available_only_capturing_pieces() {
    let f = board(&[piece(6, 5, false), piece(2, 5, false), piece(0, 7, false)], &[piece(3, 4, false)]);
    assert_eq!(available_chess(&f, Color::White), vec![(2, 5)]);
    assert_eq!(available_chess(&f, Color::Black), vec![(3, 4)]);
}

#[test]
fn available_none() {
    let f = board(&[piece(0, 0, false)], &[]);
    assert!(available_chess(&f, Color::White).is_empty());
    assert!(available_chess(&f, Color::Black).is_empty());
}

#[test]
fn ai_step_plays_forced_capture() {
    let mut f = board(&[piece(2, 5, false), piece(6, 5, false)], &[piece(3, 4, false), piece(7, 0, false)]);
    let m = ai_step(&mut f, Color::White, 3, 1000).map(|m| (m.0, m.1, m.2, m.3, *m.4));
    assert_eq!(m, Some((2, 5, 4, 3, vec![(3, 4)])));
    assert_eq!((f.white[0].x, f.white[0].y, f.white[0].live), (4, 3, true));
    assert!(!f.white[0].king);
    assert!(!f.black[0].live);
    assert!(f.black[1].live);
    assert!(f.get_ch(3, 4).is_none());
}

#[test]
fn ai_step_crowns_white() {
    let mut f = board(&[piece(1, 1, false)], &[piece(6, 6, false)]);
    let m = ai_step(&mut f, Color::White, 2, 1000).unwrap();
    assert_eq!((m.0, m.1, m.3), (1, 1, 0));
    assert_eq!(f.white[0].y, 0);
    assert_eq!(f.white[0].x, m.2);
    assert!(f.white[0].king);
}

#[test]
fn ai_step_crowns_black() {
    let mut f = board(&[piece(1, 1, false)], &[piece(6, 6, false)]);
    let m = ai_step(&mut f, Color::Black, 2, 1000).unwrap();
    assert_eq!((m.0, m.1, m.3), (6, 6, 7));
    assert_eq!(f.black[0].y, 7);
    assert!(f.black[0].king);
    assert!(!f.white[0].king);
}

#[test]
fn ai_step_without_moves_keeps_board() {
    let mut f = board(&[piece(0, 0, false)], &[piece(4, 4, false)]);
    assert!(ai_step(&mut f, Color::White, 2, 1000).is_none());
    assert_eq!((f.white[0].x, f.white[0].y, f.white[0].live), (0, 0, true));
    assert_eq!((f.black[0].x, f.black[0].y, f.black[0].live), (4, 4, true));
}

#[test]
fn ai_step_multi_capture() {
    let mut f = board(&[piece(0, 7, false)], &[piece(1, 6, false), piece(3, 4, false), piece(7, 0, false)]);
    let m = ai_step(&mut f, Color::White, 2, 1000).map(|m| (m.0, m.1, m.2, m.3, *m.4));
    assert_eq!(m, Some((0, 7, 4, 3, vec![(1, 6), (3, 4)])));
    assert!(!f.black[0].live);
    assert!(!f.black[1].live);
    assert!(f.black[2].live);
    assert_eq!((f.white[0].x, f.white[0].y), (4, 3));
}

#[test]
fn select_piece_with_keys() {
    let f = Field::new();
    let av = available_chess(&f, Color::White);
    let (i, j, grabbed, msgs) = select_line(&f, &av, 0, 0, &chars("sssssdd \n"));
    assert_eq!((i, j, grabbed), (5, 2, true));
    assert!(msgs.is_empty());
}

#[test]
fn select_reports_bad_keys() {
    let f = Field::new();
    let av = available_chess(&f, Color::White);
    let (i, j, grabbed, msgs) = select_line(&f, &av, 0, 0, &chars(" xwa \n"));
    assert_eq!((i, j, grabbed), (0, 0, false));
    assert_eq!(msgs, vec![UiMessage::BadCell, UiMessage::BadCommand, UiMessage::BadCommand, UiMessage::BadCommand, UiMessage::BadCell]);
}

#[test]
fn select_ignores_rest_after_grab() {
    let f = Field::new();
    let av = available_chess(&f, Color::White);
    let (i, j, grabbed, msgs) = select_line(&f, &av, 6, 0, &chars("w ddd"));
    assert_eq!((i, j, grabbed), (5, 0, true));
    assert!(msgs.is_empty());
    let (i, j, grabbed, msgs) = select_line(&f, &av, 6, 0, &chars("wd x"));
    assert_eq!((i, j, grabbed), (5, 1, false));
    assert_eq!(msgs, vec![UiMessage::BadCell, UiMessage::BadCommand]);
}

#[test]
fn select_empty_cell_is_bad() {
    let f = Field::new();
    let av = available_chess(&f, Color::White);
    let (i, j, grabbed, msgs) = select_line(&f, &av, 4, 4, &chars(" "));
    assert_eq!((i, j, grabbed), (4, 4, false));
    assert_eq!(msgs, vec![UiMessage::BadCell]);
}

#[test]
fn grab_and_move() {
    let mut f = Field::new();
    let steps = user_grab(&f, 5, 2);
    let plain: Vec<(usize, usize, usize)> = steps.iter().map(|s| (s.0, s.1, s.2.len())).collect();
    assert_eq!(plain, vec![(1, 4, 0), (3, 4, 0)]);
    let (i, j, moved, msgs) = move_line(&mut f, &Color::White, 5, 2, &steps, 5, 2, &chars("wd \n"));
    assert_eq!((i, j, moved), (4, 3, true));
    assert_eq!(msgs, vec![UiMessage::Moved(2, 5, 3, 4)]);
    assert_eq!((f.white[1].x, f.white[1].y), (3, 4));
    assert!(f.get_ch(2, 5).is_none());
}

#[test]
fn move_to_bad_cell() {
    let mut f = Field::new();
    let steps = user_grab(&f, 5, 2);
    let (i, j, moved, msgs) = move_line(&mut f, &Color::White, 5, 2, &steps, 5, 2, &chars(" w q"));
    assert_eq!((i, j, moved), (4, 2, false));
    assert_eq!(msgs, vec![UiMessage::BadCell, UiMessage::BadCell, UiMessage::BadCommand]);
    assert_eq!((f.white[1].x, f.white[1].y), (2, 5));
}

#[test]
fn move_with_capture_reports_kills() {
    let mut f = board(&[piece(0, 7, false)], &[piece(1, 6, false), piece(3, 4, false)]);
    let steps = user_grab(&f, 7, 0);
    assert_eq!(steps.len(), 1);
    let (i, j, moved, msgs) = move_line(&mut f, &Color::White, 7, 0, &steps, 7, 0, &chars("wwwwdddd "));
    assert_eq!((i, j, moved), (3, 4, true));
    assert_eq!(msgs, vec![UiMessage::Moved(0, 7, 4, 3), UiMessage::Killed(1, 6), UiMessage::Killed(3, 4)]);
    assert!(!f.black[0].live);
    assert!(!f.black[1].live);
    assert_eq!((f.white[0].x, f.white[0].y), (4, 3));
}

#[test]
fn user_move_crowns() {
    let mut f = board(&[piece(1, 1, false)], &[piece(6, 6, false)]);
    let steps = user_grab(&f, 1, 1);
    let (_, _, moved, msgs) = move_line(&mut f, &Color::White, 1, 1, &steps, 1, 1, &chars("wa "));
    assert!(moved);
    assert_eq!(msgs, vec![UiMessage::Moved(1, 1, 0, 0)]);
    assert!(f.white[0].king);
    assert_eq!((f.white[0].x, f.white[0].y), (0, 0));
}

#[test]
fn redraw_plain_board() {
    let f = Field::new();
    let a = redraw(&f, 2, 3, false, None, None);
    assert_eq!(a, f.show_crd(2, 3, false, &Vec::new(), None));
    let marks = vec![(0usize, 4usize)];
    let b = redraw(&f, 2, 3, true, Some(&marks), Some((1, 1)));
    assert_eq!(b, f.show_crd(2, 3, true, &marks, Some((1, 1))));
}

#[test]
fn redraw_from_marks_destinations() {
    let f = Field::new();
    let s = redraw_from(&f, 5, 2, None);
    assert_eq!(s, f.show_crd(5, 2, true, &vec![(1, 4), (3, 4)], None));
    let lines: Vec<&str> = s.lines().collect();
    assert_eq!(lines[9], "|.|@|.|@|.| |.| |");
}

#[test]
fn game_state_scores() {
    let f = Field::new();
    assert_eq!(game_state(&f, &Color::White), (0, None));
    assert_eq!(game_state(&f, &Color::Black), (0, None));
    let f = board(&[piece(2, 5, false), piece(6, 5, false)], &[piece(5, 2, false)]);
    assert_eq!(game_state(&f, &Color::White), (1020, None));
    assert_eq!(game_state(&f, &Color::Black), (-1020, None));
}

#[test]
fn game_state_decided() {
    let f = board(&[piece(4, 4, false)], &[piece(0, 7, false)]);
    assert_eq!(game_state(&f, &Color::White), (WIN_PRICE + 1, Some(true)));
    assert_eq!(game_state(&f, &Color::Black), (-(WIN_PRICE + 1), Some(false)));
}
