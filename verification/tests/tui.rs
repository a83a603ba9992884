use rustdecks::device::Event;
use ratatui::layout::{Constraint, Layout};
use ratatui::widgets::{Block, Borders};
use rustdecks::tui::{
    bordered_inner, dim, grid, hit, is_connected, key_input, key_of_char, layout, mouse_input,
    push_sample, short, Hits, Mouse, Rect, TuiKey, HIST,
};
use std::collections::VecDeque;
use rustdecks::tui::{cut_constraints, place, Constraint as C, Cut};

fn r(x: u16, y: u16, width: u16, height: u16) -> Rect {
    Rect { x, y, width, height }
}

/// Keys in a 4x3 grid of 10x4 cells at (0,0); encoders in two columns at
/// x=50; LEDs in a column at x=80.
fn hits() -> Hits {
    let keys = (0..12).map(|i| r((i % 4) * 10, (i / 4) * 4, 10, 4)).collect();
    let encoders = (0..6).map(|i| r(50 + (i / 3) * 10, 1 + (i % 3) * 2, 10, 2)).collect();
    let leds = (0..8).map(|i| r(80, i, 5, 1)).collect();
    Hits { keys, encoders, enc_outer: r(49, 0, 22, 8), leds }
}

#[test]
fn typed_keys() {
    assert_eq!(key_of_char('1'), Some(0));
    assert_eq!(key_of_char('R'), Some(7));
    assert_eq!(key_of_char('f'), Some(11));
    assert_eq!(key_of_char('z'), None);
    let (ev, f) = key_input(TuiKey::Char('W'), 2);
    assert_eq!(ev, vec![Event::Key { index: 5, pressed: true }, Event::Key { index: 5, pressed: false }]);
    assert_eq!(f, 2);
    let (ev, _) = key_input(TuiKey::Char(' '), 4);
    assert_eq!(
        ev,
        vec![
            Event::EncoderPress { index: 4, pressed: true },
            Event::EncoderPress { index: 4, pressed: false }
        ]
    );
    assert_eq!(key_input(TuiKey::Char('x'), 4).0, vec![]);
    let (ev, _) = key_input(TuiKey::F(8), 0);
    assert_eq!(ev, vec![Event::Button { index: 7, pressed: true }, Event::Button { index: 7, pressed: false }]);
    assert!(key_input(TuiKey::F(9), 0).0.is_empty());
    assert!(key_input(TuiKey::F(0), 0).0.is_empty());
    assert_eq!(key_input(TuiKey::Right, 3).0, vec![Event::EncoderTurn { index: 3, clockwise: true }]);
    assert_eq!(key_input(TuiKey::Left, 3).0, vec![Event::EncoderTurn { index: 3, clockwise: false }]);
    assert_eq!(key_input(TuiKey::Enter, 1).0.len(), 2);
    assert!(key_input(TuiKey::Other, 1).0.is_empty());
}

#[test]
fn focus_wraps_around_six_encoders() {
    assert_eq!(key_input(TuiKey::Up, 0), (vec![], 5));
    assert_eq!(key_input(TuiKey::Down, 5), (vec![], 0));
    let mut f = 2;
    for _ in 0..6 {
        f = key_input(TuiKey::Down, f).1;
    }
    assert_eq!(f, 2);
}

#[test]
fn clicks_and_wheel() {
    let h = hits();
    // a click on key 6
    let (ev, f) = mouse_input(Mouse::LeftDown, &h, 25, 5, 0);
    assert_eq!(ev, vec![Event::Key { index: 6, pressed: true }, Event::Key { index: 6, pressed: false }]);
    assert_eq!(f, 0);
    // a click on LED 3
    let (ev, _) = mouse_input(Mouse::LeftDown, &h, 82, 3, 0);
    assert_eq!(ev, vec![Event::Button { index: 3, pressed: true }, Event::Button { index: 3, pressed: false }]);
    // a click on encoder 4 pushes and focuses it
    let (ev, f) = mouse_input(Mouse::LeftDown, &h, 61, 3, 0);
    assert_eq!(ev[0], Event::EncoderPress { index: 4, pressed: true });
    assert_eq!(f, 4);
    // the wheel in the panel but off any cell turns the focused encoder
    let (ev, f) = mouse_input(Mouse::ScrollUp, &h, 49, 7, 2);
    assert_eq!(ev, vec![Event::EncoderTurn { index: 2, clockwise: true }]);
    assert_eq!(f, 2);
    let (ev, f) = mouse_input(Mouse::ScrollDown, &h, 52, 1, 2);
    assert_eq!(ev, vec![Event::EncoderTurn { index: 0, clockwise: false }]);
    assert_eq!(f, 0);
    // outside everything nothing happens
    assert_eq!(mouse_input(Mouse::ScrollUp, &h, 200, 200, 3), (vec![], 3));
    assert_eq!(mouse_input(Mouse::LeftDown, &h, 200, 200, 3), (vec![], 3));
    assert_eq!(mouse_input(Mouse::Other, &h, 25, 5, 3), (vec![], 3));
}

#[test]
fn hit_is_half_open() {
    let a = r(2, 3, 4, 5);
    assert!(hit(a, 2, 3));
    assert!(hit(a, 5, 7));
    assert!(!hit(a, 6, 7));
    assert!(!hit(a, 5, 8));
    assert!(!hit(a, 1, 3));
    assert!(!hit(r(0, 0, 0, 0), 0, 0));
}

#[test]
fn history_keeps_the_latest() {
    let mut q = VecDeque::new();
    for v in 0..(HIST as u64 + 5) {
        push_sample(&mut q, v);
    }
    assert_eq!(q.len(), HIST);
    assert_eq!(q.front(), Some(&5));
    assert_eq!(q.back(), Some(&(HIST as u64 + 4)));
    let mut big: VecDeque<u64> = (0..300).collect();
    push_sample(&mut big, 7);
    assert_eq!(big.len(), HIST);
    assert_eq!(big.back(), Some(&7));
    assert_eq!(big.front(), Some(&181));
}

#[test]
fn display_helpers() {
    assert_eq!(dim([255, 3, 0]), [127, 1, 0]);
    assert_eq!(short("sim/cockpit2/gauges/altitude"), "gauges/altitude");
    assert_eq!(short("a/b"), "a/b");
    assert_eq!(short("plain"), "plain");
    assert_eq!(short("a/b/"), "b/");
    assert_eq!(short("a//b"), "/b");
    assert!(is_connected("connected"));
    assert!(is_connected("connected at /dev/ttyACM0"));
    assert!(!is_connected("connect"));
    assert!(!is_connected("disconnected"));
}

fn rr(r: Rect) -> ratatui::layout::Rect {
    ratatui::layout::Rect::new(r.x, r.y, r.width, r.height)
}

#[test]
fn border_inside_matches_a_bordered_block() {
    for &(x, y, w, h) in &[(0, 0, 10, 5), (3, 4, 1, 1), (7, 2, 0, 3), (0, 0, 2, 2), (65530, 65530, 5, 5)] {
        let r = Rect { x, y, width: w, height: h };
        let got = bordered_inner(r);
        let want = Block::default().borders(Borders::ALL).inner(rr(r));
        assert_eq!(rr(got), want, "{r:?}");
    }
}

#[test]
fn grid_is_row_major() {
    let cells = grid(Rect { x: 0, y: 0, width: 40, height: 12 }, 3, 4);
    assert_eq!(cells.len(), 12);
    assert_eq!(cells[0], Rect { x: 0, y: 0, width: 10, height: 4 });
    assert_eq!(cells[5], Rect { x: 10, y: 4, width: 10, height: 4 });
    assert_eq!(cells[11], Rect { x: 30, y: 8, width: 10, height: 4 });
}

#[test]
fn mirror_layout_matches_the_terminal_layout() {
    for &(w, h) in &[(120u16, 40u16), (80, 24), (200, 60), (10, 5)] {
        let area = ratatui::layout::Rect::new(0, 0, w, h);
        let rows = Layout::vertical([
            Constraint::Length(1),
            Constraint::Min(8),
            Constraint::Length(11),
            Constraint::Length(5),
            Constraint::Length(1),
        ])
        .split(area);
        let top = Layout::horizontal([Constraint::Percentage(58), Constraint::Percentage(42)]).split(rows[1]);
        let right = Layout::vertical([Constraint::Length(5), Constraint::Min(4)]).split(top[1]);
        let keys_inner = Block::default().borders(Borders::ALL).inner(top[0]);
        let mut keys = vec![];
        for row in Layout::vertical([Constraint::Ratio(1, 3); 3]).split(keys_inner).iter() {
            keys.extend(Layout::horizontal([Constraint::Ratio(1, 4); 4]).split(*row).iter().copied());
        }
        let enc_inner = Block::default().borders(Borders::ALL).inner(right[0]);
        let enc_cols = Layout::horizontal([Constraint::Percentage(50), Constraint::Percentage(50)]).split(enc_inner);
        let mut enc = vec![];
        for col in 0..2 {
            enc.extend(Layout::vertical([Constraint::Ratio(1, 3); 3]).split(enc_cols[col]).iter().copied());
        }
        let led_inner = Block::default().borders(Borders::ALL).inner(right[1]);
        let leds = Layout::vertical([Constraint::Ratio(1, 8); 8]).split(led_inner);
        let mid = Layout::horizontal([Constraint::Percentage(50), Constraint::Percentage(50)]).split(rows[2]);
        let spark = Layout::horizontal([Constraint::Percentage(50), Constraint::Percentage(50)]).split(rows[3]);

        let l = layout(Rect { x: 0, y: 0, width: w, height: h });
        assert_eq!(rr(l.header), rows[0]);
        assert_eq!(rr(l.footer), rows[4]);
        assert_eq!(rr(l.keys_outer), top[0]);
        assert_eq!(rr(l.enc_outer), right[0]);
        assert_eq!(rr(l.leds_outer), right[1]);
        assert_eq!(l.keys.iter().map(|&r| rr(r)).collect::<Vec<_>>(), keys);
        assert_eq!(l.encoders.iter().map(|&r| rr(r)).collect::<Vec<_>>(), enc);
        assert_eq!(l.leds.iter().map(|&r| rr(r)).collect::<Vec<_>>(), leds.to_vec());
        assert_eq!((rr(l.datarefs), rr(l.events)), (mid[0], mid[1]));
        assert_eq!((rr(l.data_spark), rr(l.redraw_spark)), (spark[0], spark[1]));
        let h = l.hits();
        assert_eq!(h.keys.len(), 12);
        // a click in the middle of key 6 taps it
        let k = l.keys[6];
        if k.width > 0 && k.height > 0 {
            let (ev, _) = mouse_input(Mouse::LeftDown, &h, k.x + k.width / 2, k.y + k.height / 2, 0);
            assert_eq!(ev[0], Event::Key { index: 6, pressed: true });
        }
    }
}

#[test]
fn layout_cuts_hand_fixed_constraints() {
    assert_eq!(
        cut_constraints(Cut::Rows),
        vec![C::Length(1), C::Min(8), C::Length(11), C::Length(5), C::Length(1)]
    );
    assert_eq!(cut_constraints(Cut::Top), vec![C::Percentage(58), C::Percentage(42)]);
    assert_eq!(cut_constraints(Cut::Side), vec![C::Length(5), C::Min(4)]);
    assert_eq!(cut_constraints(Cut::Halves), vec![C::Percentage(50), C::Percentage(50)]);
    assert_eq!(cut_constraints(Cut::Thirds), vec![C::Ratio(1, 3); 3]);
    assert_eq!(cut_constraints(Cut::Eighths), vec![C::Ratio(1, 8); 8]);
}

#[test]
fn place_puts_each_part_in_its_field() {
    let p = |i: u16| r(i, i, 1, 1);
    let rows: Vec<Rect> = (0..5).map(p).collect();
    let top = vec![p(10), p(11)];
    let side = vec![p(20), p(21)];
    let keys: Vec<Rect> = (30..42).map(p).collect();
    let left = vec![p(50), p(51), p(52)];
    let right = vec![p(53), p(54), p(55)];
    let leds: Vec<Rect> = (60..68).map(p).collect();
    let mid = vec![p(70), p(71)];
    let spark = vec![p(80), p(81)];
    let l = place(&rows, &top, &side, keys.clone(), &left, &right, leds.clone(), &mid, &spark);
    assert_eq!(l.header, p(0));
    assert_eq!(l.footer, p(4));
    assert_eq!(l.keys_outer, p(10));
    assert_eq!(l.enc_outer, p(20));
    assert_eq!(l.leds_outer, p(21));
    assert_eq!(l.keys, keys);
    assert_eq!(l.encoders, (50..56).map(p).collect::<Vec<_>>());
    assert_eq!(l.leds, leds);
    assert_eq!((l.datarefs, l.events), (p(70), p(71)));
    assert_eq!((l.data_spark, l.redraw_spark), (p(80), p(81)));
}
