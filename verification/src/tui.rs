//! The decisions of the terminal mirror: which deck events a key or mouse
//! input injects, where the encoder focus moves, the sample history of the
//! throughput graphs, and small display helpers. Drawing the terminal is
//! the caller's job.
//!
//! Input map:
//!   screen keys 0..11  -> 1 2 3 4 / q w e r / a s d f   (or click a tile)
//!   round buttons b0..7 -> F1..F8                        (or click an LED)
//!   encoders e0..5     -> Up/Down focus, Left/Right turn, Enter/Space push
//!                          (or scroll/click an encoder cell)

use std::collections::VecDeque;
use vstd::prelude::*;

use ratatui::layout::{
    Constraint as RConstraint, Direction as RDirection, Layout as RLayout, Rect as RRect,
};

use crate::device::Event;
use crate::render::Rgb;
use crate::sim::{last_index_of, lemma_last_index_of_unique};
use crate::text::{chars_of, lower};

verus! {

broadcast use vstd::string::group_string_axioms;

/// Samples kept for the throughput graphs.
pub const HIST: usize = 120;

/// Keyboard characters of screen keys 0..11, in deck grid order.
pub open spec fn key_chars() -> Seq<char> {
    seq!['1', '2', '3', '4', 'q', 'w', 'e', 'r', 'a', 's', 'd', 'f']
}

/// The screen key a character stands for, matched case-insensitively.
pub open spec fn spec_key_of_char(c: char) -> Option<u8> {
    let l = lower(c);
    if l == '1' {
        Some(0)
    } else if l == '2' {
        Some(1)
    } else if l == '3' {
        Some(2)
    } else if l == '4' {
        Some(3)
    } else if l == 'q' {
        Some(4)
    } else if l == 'w' {
        Some(5)
    } else if l == 'e' {
        Some(6)
    } else if l == 'r' {
        Some(7)
    } else if l == 'a' {
        Some(8)
    } else if l == 's' {
        Some(9)
    } else if l == 'd' {
        Some(10)
    } else if l == 'f' {
        Some(11)
    } else {
        None
    }
}

/// The characters of the map are the keys in grid order.
pub proof fn lemma_key_chars_map(i: int)
    requires
        0 <= i < 12,
    ensures
        spec_key_of_char(key_chars()[i]) == Some(i as u8),
{
}

/// The keyboard grid `1 2 3 4 / q w e r / a s d f` types keys 0..11 row by
/// row, upper or lower case alike; no other character is a key.
pub proof fn lemma_key_grid(c: char)
    ensures
        spec_key_of_char('1') == Some(0u8) && spec_key_of_char('2') == Some(1u8) && spec_key_of_char('3')
            == Some(2u8) && spec_key_of_char('4') == Some(3u8),
        spec_key_of_char('q') == Some(4u8) && spec_key_of_char('w') == Some(5u8) && spec_key_of_char('e')
            == Some(6u8) && spec_key_of_char('r') == Some(7u8),
        spec_key_of_char('a') == Some(8u8) && spec_key_of_char('s') == Some(9u8) && spec_key_of_char('d')
            == Some(10u8) && spec_key_of_char('f') == Some(11u8),
        spec_key_of_char(c) == spec_key_of_char(lower(c)),
        'A' <= c <= 'Z' ==> spec_key_of_char(c) == spec_key_of_char(((c as u32) + 32) as char),
        spec_key_of_char(c) is Some ==> exists|i: int| 0 <= i < 12 && lower(c) == #[trigger] key_chars()[i],
        spec_key_of_char(c) matches Some(k) ==> k < 12 && lower(c) == key_chars()[k as int],
{
    assert(lower(lower(c)) == lower(c));
    if spec_key_of_char(c) is Some {
        let k = spec_key_of_char(c).unwrap();
        assert(lower(c) == key_chars()[k as int]);
    }
}

/// The screen key a typed character stands for.
pub fn key_of_char(c: char) -> (r: Option<u8>)
    ensures
        r == spec_key_of_char(c),
{
    let l = if 'A' <= c && c <= 'Z' {
        ((c as u8) + 32) as char
    } else {
        c
    };
    let chars: [char; 12] = ['1', '2', '3', '4', 'q', 'w', 'e', 'r', 'a', 's', 'd', 'f'];
    let mut i: usize = 0;
    while i < 12
        invariant
            i <= 12,
            l == lower(c),
            chars@ == key_chars(),
            forall|j: int| 0 <= j < i ==> chars@[j] != l,
        decreases 12 - i,
    {
        if chars[i] == l {
            return Some(i as u8);
        }
        i = i + 1;
    }
    None
}

/// A key of the terminal keyboard, as far as the mirror cares.
#[derive(Debug, Clone, Copy, PartialEq, Eq, Structural)]
pub enum TuiKey {
    Char(char),
    F(u8),
    Up,
    Down,
    Left,
    Right,
    Enter,
    Other,
}

/// A tap: press then release.
pub open spec fn tap(e_down: Event, e_up: Event) -> Seq<Event> {
    seq![e_down, e_up]
}

/// The events and new focus for a key typed while encoder `focus` has the
/// focus: a grid character taps its screen key, space or Enter pushes the
/// focused encoder, F1..F8 tap buttons b0..b7, Up/Down move the focus
/// around the six encoders, Left/Right turn the focused one.
pub open spec fn spec_key_input(key: TuiKey, focus: u8) -> (Seq<Event>, u8) {
    match key {
        TuiKey::Char(c) => match spec_key_of_char(c) {
            Some(i) => (
                tap(Event::Key { index: i, pressed: true }, Event::Key { index: i, pressed: false }),
                focus,
            ),
            None => if c == ' ' {
                (
                    tap(
                        Event::EncoderPress { index: focus, pressed: true },
                        Event::EncoderPress { index: focus, pressed: false },
                    ),
                    focus,
                )
            } else {
                (Seq::empty(), focus)
            },
        },
        TuiKey::F(n) => if 1 <= n <= 8 {
            (
                tap(
                    Event::Button { index: (n - 1) as u8, pressed: true },
                    Event::Button { index: (n - 1) as u8, pressed: false },
                ),
                focus,
            )
        } else {
            (Seq::empty(), focus)
        },
        TuiKey::Up => (Seq::empty(), ((focus + 5) % 6) as u8),
        TuiKey::Down => (Seq::empty(), ((focus + 1) % 6) as u8),
        TuiKey::Left => (seq![Event::EncoderTurn { index: focus, clockwise: false }], focus),
        TuiKey::Right => (seq![Event::EncoderTurn { index: focus, clockwise: true }], focus),
        TuiKey::Enter => (
            tap(
                Event::EncoderPress { index: focus, pressed: true },
                Event::EncoderPress { index: focus, pressed: false },
            ),
            focus,
        ),
        TuiKey::Other => (Seq::empty(), focus),
    }
}

fn tap_events(down: Event, up: Event) -> (r: Vec<Event>)
    ensures
        r@ == tap(down, up),
{
    let mut v: Vec<Event> = Vec::new();
    v.push(down);
    v.push(up);
    assert(v@ =~= tap(down, up));
    v
}

/// Decide what a typed key injects into the deck.
pub fn key_input(key: TuiKey, focus: u8) -> (r: (Vec<Event>, u8))
    requires
        focus < 6,
    ensures
        r.0@ == spec_key_input(key, focus).0,
        r.1 == spec_key_input(key, focus).1,
        r.1 < 6,
{
    match key {
        TuiKey::Char(c) => match key_of_char(c) {
            Some(i) => (
                tap_events(Event::Key { index: i, pressed: true }, Event::Key { index: i, pressed: false }),
                focus,
            ),
            None => if c == ' ' {
                (
                    tap_events(
                        Event::EncoderPress { index: focus, pressed: true },
                        Event::EncoderPress { index: focus, pressed: false },
                    ),
                    focus,
                )
            } else {
                (Vec::new(), focus)
            },
        },
        TuiKey::F(n) => if 1 <= n && n <= 8 {
            (
                tap_events(
                    Event::Button { index: n - 1, pressed: true },
                    Event::Button { index: n - 1, pressed: false },
                ),
                focus,
            )
        } else {
            (Vec::new(), focus)
        },
        TuiKey::Up => (Vec::new(), (focus + 5) % 6),
        TuiKey::Down => (Vec::new(), (focus + 1) % 6),
        TuiKey::Left => {
            let mut v: Vec<Event> = Vec::new();
            v.push(Event::EncoderTurn { index: focus, clockwise: false });
            assert(v@ =~= seq![Event::EncoderTurn { index: focus, clockwise: false }]);
            (v, focus)
        },
        TuiKey::Right => {
            let mut v: Vec<Event> = Vec::new();
            v.push(Event::EncoderTurn { index: focus, clockwise: true });
            assert(v@ =~= seq![Event::EncoderTurn { index: focus, clockwise: true }]);
            (v, focus)
        },
        TuiKey::Enter => (
            tap_events(
                Event::EncoderPress { index: focus, pressed: true },
                Event::EncoderPress { index: focus, pressed: false },
            ),
            focus,
        ),
        TuiKey::Other => (Vec::new(), focus),
    }
}

/// Moving the focus up six times, or down six times, comes back.
pub proof fn lemma_focus_cycles(f: u8)
    requires
        f < 6,
    ensures
        spec_key_input(TuiKey::Down, spec_key_input(TuiKey::Up, f).1).1 == f,
        spec_key_input(TuiKey::Up, spec_key_input(TuiKey::Down, f).1).1 == f,
{
}

/// The encoder keys act on the focused encoder and keep the focus: Enter
/// pushes it exactly as space does (press, then release), Left turns it
/// counter-clockwise and Right clockwise, once each; F1..F8 tap buttons
/// b0..b7.
pub proof fn lemma_encoder_keys(f: u8, n: u8)
    requires
        f < 6,
    ensures
        spec_key_input(TuiKey::Enter, f) == spec_key_input(TuiKey::Char(' '), f),
        spec_key_input(TuiKey::Enter, f).0 == seq![
            Event::EncoderPress { index: f, pressed: true },
            Event::EncoderPress { index: f, pressed: false },
        ],
        spec_key_input(TuiKey::Enter, f).1 == f,
        spec_key_input(TuiKey::Down, f) == (Seq::<Event>::empty(), if f == 5 {
            0u8
        } else {
            (f + 1) as u8
        }),
        spec_key_input(TuiKey::Up, f) == (Seq::<Event>::empty(), if f == 0 {
            5u8
        } else {
            (f - 1) as u8
        }),
        spec_key_input(TuiKey::Other, f) == (Seq::<Event>::empty(), f),
        spec_key_input(TuiKey::Left, f) == (seq![Event::EncoderTurn { index: f, clockwise: false }], f),
        spec_key_input(TuiKey::Right, f) == (seq![Event::EncoderTurn { index: f, clockwise: true }], f),
        1 <= n <= 8 ==> spec_key_input(TuiKey::F(n), f) == (
            seq![
                Event::Button { index: (n - 1) as u8, pressed: true },
                Event::Button { index: (n - 1) as u8, pressed: false },
            ],
            f,
        ),
{
    assert(spec_key_of_char(' ') is None);
}

/// A terminal rectangle.
#[derive(Debug, Clone, Copy, PartialEq, Eq, Structural)]
pub struct Rect {
    pub x: u16,
    pub y: u16,
    pub width: u16,
    pub height: u16,
}

/// Whether a rectangle lies within the terminal's coordinate range.
pub open spec fn rect_ok(r: Rect) -> bool {
    r.x + r.width <= u16::MAX && r.y + r.height <= u16::MAX
}

/// Whether (x, y) lies in `r`.
pub open spec fn spec_hit(r: Rect, x: u16, y: u16) -> bool {
    r.x <= x < r.x + r.width && r.y <= y < r.y + r.height
}

/// Whether (x, y) lies in `r`.
pub fn hit(r: Rect, x: u16, y: u16) -> (b: bool)
    requires
        rect_ok(r),
    ensures
        b == spec_hit(r, x, y),
{
    x >= r.x && x < r.x + r.width && y >= r.y && y < r.y + r.height
}

/// Where the mirror's clickable tiles are.
#[derive(Debug, Clone)]
pub struct Hits {
    /// Screen keys 0..11.
    pub keys: Vec<Rect>,
    /// Encoder cells e0..e5.
    pub encoders: Vec<Rect>,
    /// The whole encoders panel.
    pub enc_outer: Rect,
    /// LEDs b0..b7.
    pub leds: Vec<Rect>,
}

/// The direction a layout splits an area in.
#[derive(Debug, Clone, Copy, PartialEq, Eq, Structural)]
pub enum Direction {
    /// Side by side.
    Horizontal,
    /// Stacked.
    Vertical,
}

/// A size constraint on one part of a split.
#[derive(Debug, Clone, Copy, PartialEq, Eq, Structural)]
pub enum Constraint {
    /// Exactly this many cells.
    Length(u16),
    /// At least this many cells.
    Min(u16),
    /// This percentage of the area.
    Percentage(u16),
    /// This fraction of the area.
    Ratio(u32, u32),
}

/// Whether `inner` lies within `outer`.
pub open spec fn within(inner: Rect, outer: Rect) -> bool {
    &&& outer.x <= inner.x
    &&& inner.x + inner.width <= outer.x + outer.width
    &&& outer.y <= inner.y
    &&& inner.y + inner.height <= outer.y + outer.height
}

/// Whether `a` spans the same columns as `b`.
pub open spec fn same_columns(a: Rect, b: Rect) -> bool {
    a.x == b.x && a.width == b.width
}

/// Whether `a` spans the same rows as `b`.
pub open spec fn same_rows(a: Rect, b: Rect) -> bool {
    a.y == b.y && a.height == b.height
}

/// Trusted: `ratatui::layout::Layout::split` of `area` with `constraints`
/// along `dir` (no margin, no spacing). Its constraint solver works in
/// floating point and picks pivots in the order its hash maps are walked, so
/// where constraints leave a choice the outcome may differ from one process
/// to the next; only the solver's required constraints hold of every
/// outcome. So what it returns is stated as far as those give it: one part
/// per constraint, each within the coordinate range and within `area`, and,
/// across the split, the area's own position and extent. That the parts
/// come in order without overlap, and how large each is, rests on
/// constraints the solver may relax, and is not stated.
#[verifier::external_body]
fn split(area: Rect, dir: Direction, constraints: &[Constraint]) -> (parts: Vec<Rect>)
    ensures
        parts@.len() == constraints@.len(),
        forall|i: int| 0 <= i < parts@.len() ==> rect_ok(#[trigger] parts@[i]),
        rect_ok(area) ==> forall|i: int|
            0 <= i < parts@.len() ==> within(#[trigger] parts@[i], area) && (dir
                == Direction::Vertical ==> same_columns(parts@[i], area)) && (dir
                == Direction::Horizontal ==> same_rows(parts@[i], area)),
{
    let cs: Vec<RConstraint> = constraints.iter().map(|c| match *c {
        Constraint::Length(n) => RConstraint::Length(n),
        Constraint::Min(n) => RConstraint::Min(n),
        Constraint::Percentage(n) => RConstraint::Percentage(n),
        Constraint::Ratio(a, b) => RConstraint::Ratio(a, b),
    }).collect();
    let d = if dir == Direction::Horizontal { RDirection::Horizontal } else { RDirection::Vertical };
    let parts = RLayout::default().direction(d).constraints(cs).split(RRect::new(
        area.x,
        area.y,
        area.width,
        area.height,
    ));
    parts.iter().map(|p| Rect { x: p.x, y: p.y, width: p.width, height: p.height }).collect()
}

/// `a + b`, saturating at `u16::MAX`.
pub open spec fn sat_add(a: u16, b: u16) -> u16 {
    if a + b > u16::MAX {
        u16::MAX
    } else {
        (a + b) as u16
    }
}

/// `a - b`, saturating at 0.
pub open spec fn sat_sub(a: u16, b: u16) -> u16 {
    if a < b {
        0
    } else {
        (a - b) as u16
    }
}

/// The inside of a one-cell border around `r` (as ratatui's bordered block
/// computes it): one cell in from each side, shrinking to nothing.
pub open spec fn spec_bordered_inner(r: Rect) -> Rect {
    let right = sat_add(r.x, r.width);
    let bottom = sat_add(r.y, r.height);
    let x = if sat_add(r.x, 1) < right {
        sat_add(r.x, 1)
    } else {
        right
    };
    let y = if sat_add(r.y, 1) < bottom {
        sat_add(r.y, 1)
    } else {
        bottom
    };
    Rect { x, y, width: sat_sub(sat_sub(r.width, 1), 1), height: sat_sub(sat_sub(r.height, 1), 1) }
}

/// The inside of a one-cell border around `r`.
pub fn bordered_inner(r: Rect) -> (inner: Rect)
    ensures
        inner == spec_bordered_inner(r),
        rect_ok(r) ==> rect_ok(inner) && within(inner, r),
{
    let right = r.x.saturating_add(r.width);
    let bottom = r.y.saturating_add(r.height);
    let x1 = r.x.saturating_add(1);
    let y1 = r.y.saturating_add(1);
    Rect {
        x: if x1 < right {
            x1
        } else {
            right
        },
        y: if y1 < bottom {
            y1
        } else {
            bottom
        },
        width: r.width.saturating_sub(1).saturating_sub(1),
        height: r.height.saturating_sub(1).saturating_sub(1),
    }
}

/// `n` copies of `c`.
pub open spec fn copies(c: Constraint, n: nat) -> Seq<Constraint> {
    Seq::new(n, |i: int| c)
}

fn repeat(c: Constraint, n: u16) -> (v: Vec<Constraint>)
    ensures
        v@ == copies(c, n as nat),
{
    let mut v: Vec<Constraint> = Vec::new();
    let mut i: u16 = 0;
    while i < n
        invariant
            i <= n,
            v@ == copies(c, i as nat),
        decreases n - i,
    {
        v.push(c);
        i = i + 1;
        assert(v@ =~= copies(c, i as nat));
    }
    v
}

/// Split `area` into `rows` x `cols` cells, row-major: `rows` stacked
/// bands, each a `Ratio(1, rows)` share, each cut into `cols` parts of a
/// `Ratio(1, cols)` share.
pub fn grid(area: Rect, rows: u16, cols: u16) -> (cells: Vec<Rect>)
    ensures
        cells@.len() == rows * cols,
        forall|i: int| 0 <= i < cells@.len() ==> rect_ok(#[trigger] cells@[i]),
        rect_ok(area) ==> forall|i: int| 0 <= i < cells@.len() ==> within(#[trigger] cells@[i], area),
        forall|r: int, c: int, d: int|
            0 <= r < rows && 0 <= c < cols && 0 <= d < cols ==> same_rows(
                #[trigger] cells@[r * cols + c],
                #[trigger] cells@[r * cols + d],
            ),
{
    let row_parts = split(area, Direction::Vertical, repeat(Constraint::Ratio(1, rows as u32), rows).as_slice());
    let col_c = repeat(Constraint::Ratio(1, cols as u32), cols);
    let mut cells: Vec<Rect> = Vec::new();
    let mut i: usize = 0;
    while i < row_parts.len()
        invariant
            i <= row_parts@.len() == rows,
            col_c@.len() == cols,
            cells@.len() == i * cols,
            forall|k: int| 0 <= k < row_parts@.len() ==> rect_ok(#[trigger] row_parts@[k]),
            forall|k: int| 0 <= k < cells@.len() ==> rect_ok(#[trigger] cells@[k]),
            rect_ok(area) ==> forall|k: int| 0 <= k < row_parts@.len() ==> within(#[trigger] row_parts@[k], area),
            rect_ok(area) ==> forall|k: int| 0 <= k < cells@.len() ==> within(#[trigger] cells@[k], area),
            forall|r: int, c: int|
                0 <= r < i && 0 <= c < cols ==> same_rows(#[trigger] cells@[r * cols + c], row_parts@[r]),
        decreases row_parts@.len() - i,
    {
        let row = split(row_parts[i], Direction::Horizontal, col_c.as_slice());
        let ghost base = i * cols;
        let mut j: usize = 0;
        while j < row.len()
            invariant
                j <= row@.len() == cols,
                i < row_parts@.len(),
                base == i * cols,
                cells@.len() == base + j,
                forall|k: int| 0 <= k < row@.len() ==> rect_ok(#[trigger] row@[k]),
                forall|k: int| 0 <= k < row@.len() ==> within(#[trigger] row@[k], row_parts@[i as int]) && same_rows(row@[k], row_parts@[i as int]),
                forall|k: int| 0 <= k < cells@.len() ==> rect_ok(#[trigger] cells@[k]),
                rect_ok(area) ==> within(row_parts@[i as int], area),
                rect_ok(area) ==> forall|k: int| 0 <= k < cells@.len() ==> within(#[trigger] cells@[k], area),
                forall|r: int, c: int|
                    0 <= r < i && 0 <= c < cols ==> same_rows(#[trigger] cells@[r * cols + c], row_parts@[r]),
                forall|c: int| 0 <= c < j ==> same_rows(#[trigger] cells@[base + c], row_parts@[i as int]),
            decreases row@.len() - j,
        {
            let ghost before = cells@;
            cells.push(row[j]);
            proof {
                assert forall|r: int, c: int|
                    0 <= r < i && 0 <= c < cols implies same_rows(#[trigger] cells@[r * cols + c], row_parts@[r]) by {
                    assert(r * cols + c < i * cols) by (nonlinear_arith)
                        requires 0 <= r < i, 0 <= c < cols;
                    assert(cells@[r * cols + c] == before[r * cols + c]);
                }
                assert forall|c: int| 0 <= c < j + 1 implies same_rows(#[trigger] cells@[base + c], row_parts@[i as int]) by {
                    if c < j {
                        assert(cells@[base + c] == before[base + c]);
                    }
                }
            }
            j = j + 1;
        }
        proof {
            assert((i + 1) * cols == i * cols + cols) by (nonlinear_arith);
            assert forall|r: int, c: int|
                0 <= r < i + 1 && 0 <= c < cols implies same_rows(#[trigger] cells@[r * cols + c], row_parts@[r]) by {
                if r == i {
                    assert(cells@[base + c] == cells@[r * cols + c]);
                }
            }
        }
        i = i + 1;
    }
    proof {
        assert forall|r: int, c: int, d: int|
            0 <= r < rows && 0 <= c < cols && 0 <= d < cols implies same_rows(
                #[trigger] cells@[r * cols + c],
                #[trigger] cells@[r * cols + d],
            ) by {
            assert(same_rows(cells@[r * cols + c], row_parts@[r]));
            assert(same_rows(cells@[r * cols + d], row_parts@[r]));
        }
    }
    cells
}

/// The areas of the terminal mirror: header, keys, encoders, LEDs, live
/// values, input log, throughput graphs and footer.
#[derive(Debug, Clone)]
pub struct LayoutRects {
    pub header: Rect,
    pub keys_outer: Rect,
    /// Screen keys 0..11, row-major.
    pub keys: Vec<Rect>,
    pub enc_outer: Rect,
    /// Encoder cells: e0..e2 down the left column, e3..e5 down the right.
    pub encoders: Vec<Rect>,
    pub leds_outer: Rect,
    /// LEDs b0..b7, stacked.
    pub leds: Vec<Rect>,
    pub datarefs: Rect,
    pub events: Rect,
    pub data_spark: Rect,
    pub redraw_spark: Rect,
    pub footer: Rect,
}

/// A complete layout: every tile there, every area in range.
pub open spec fn layout_ok(l: LayoutRects) -> bool {
    &&& l.keys@.len() == 12
    &&& l.encoders@.len() == 6
    &&& l.leds@.len() == 8
    &&& forall|i: int| 0 <= i < 12 ==> rect_ok(#[trigger] l.keys@[i])
    &&& forall|i: int| 0 <= i < 6 ==> rect_ok(#[trigger] l.encoders@[i])
    &&& forall|i: int| 0 <= i < 8 ==> rect_ok(#[trigger] l.leds@[i])
    &&& rect_ok(l.header) && rect_ok(l.keys_outer) && rect_ok(l.enc_outer) && rect_ok(l.leds_outer)
    &&& rect_ok(l.datarefs) && rect_ok(l.events) && rect_ok(l.data_spark)
    &&& rect_ok(l.redraw_spark) && rect_ok(l.footer)
}

/// The splits that make up the mirror's layout.
#[derive(Debug, Clone, Copy, PartialEq, Eq, Structural)]
pub enum Cut {
    /// The rows of the whole area: header, keys and panels, values and log,
    /// graphs, footer.
    Rows,
    /// The keys beside the encoder and LED panels.
    Top,
    /// The encoder panel above the LED panel.
    Side,
    /// Two equal halves.
    Halves,
    /// Three equal thirds.
    Thirds,
    /// Eight equal eighths.
    Eighths,
}

/// The constraints of each split of the layout.
pub open spec fn spec_cut(c: Cut) -> Seq<Constraint> {
    match c {
        Cut::Rows => seq![
            Constraint::Length(1),
            Constraint::Min(8),
            Constraint::Length(11),
            Constraint::Length(5),
            Constraint::Length(1),
        ],
        Cut::Top => seq![Constraint::Percentage(58), Constraint::Percentage(42)],
        Cut::Side => seq![Constraint::Length(5), Constraint::Min(4)],
        Cut::Halves => seq![Constraint::Percentage(50), Constraint::Percentage(50)],
        Cut::Thirds => copies(Constraint::Ratio(1, 3), 3),
        Cut::Eighths => copies(Constraint::Ratio(1, 8), 8),
    }
}

/// The mirror's rows are a one-line header, the keys and panels (at least
/// 8 lines), 11 lines of values and log, 5 lines of graphs and a one-line
/// footer; the keys take 58% of their row beside the panels' 42%; the
/// encoder panel is 5 lines above the LED panel (at least 4); panels split
/// into halves, thirds and eighths.
pub proof fn lemma_cuts()
    ensures
        spec_cut(Cut::Rows) == seq![
            Constraint::Length(1),
            Constraint::Min(8),
            Constraint::Length(11),
            Constraint::Length(5),
            Constraint::Length(1),
        ],
        spec_cut(Cut::Top) == seq![Constraint::Percentage(58), Constraint::Percentage(42)],
        spec_cut(Cut::Side) == seq![Constraint::Length(5), Constraint::Min(4)],
        spec_cut(Cut::Halves) == seq![Constraint::Percentage(50), Constraint::Percentage(50)],
        spec_cut(Cut::Thirds) =~= seq![Constraint::Ratio(1, 3), Constraint::Ratio(1, 3), Constraint::Ratio(1, 3)],
        spec_cut(Cut::Eighths).len() == 8 && forall|i: int| 0 <= i < 8 ==> #[trigger] spec_cut(Cut::Eighths)[i]
            == Constraint::Ratio(1, 8),
{
}

/// The constraints that split `c` hands to the layout solver.
pub fn cut_constraints(c: Cut) -> (v: Vec<Constraint>)
    ensures
        v@ == spec_cut(c),
{
    match c {
        Cut::Rows => {
            let mut v: Vec<Constraint> = Vec::new();
            v.push(Constraint::Length(1));
            v.push(Constraint::Min(8));
            v.push(Constraint::Length(11));
            v.push(Constraint::Length(5));
            v.push(Constraint::Length(1));
            assert(v@ =~= spec_cut(c));
            v
        },
        Cut::Top => {
            let v = vec![Constraint::Percentage(58), Constraint::Percentage(42)];
            assert(v@ =~= spec_cut(c));
            v
        },
        Cut::Side => {
            let v = vec![Constraint::Length(5), Constraint::Min(4)];
            assert(v@ =~= spec_cut(c));
            v
        },
        Cut::Halves => {
            let v = vec![Constraint::Percentage(50), Constraint::Percentage(50)];
            assert(v@ =~= spec_cut(c));
            v
        },
        Cut::Thirds => repeat(Constraint::Ratio(1, 3), 3),
        Cut::Eighths => repeat(Constraint::Ratio(1, 8), 8),
    }
}

/// The layout that the parts of its splits give: the rows (header, key
/// row, values row, graphs row, footer), the key row's halves (keys,
/// side column), the side column's halves (encoder panel, LED panel), the
/// key cells, the two encoder columns, the LED cells, the values row's
/// halves (live values, input log) and the graphs row's halves.
pub open spec fn spec_place(
    rows: Seq<Rect>,
    top: Seq<Rect>,
    side: Seq<Rect>,
    keys: Seq<Rect>,
    enc_left: Seq<Rect>,
    enc_right: Seq<Rect>,
    leds: Seq<Rect>,
    mid: Seq<Rect>,
    spark: Seq<Rect>,
    l: LayoutRects,
) -> bool {
    &&& l.header == rows[0]
    &&& l.keys_outer == top[0]
    &&& l.keys@ == keys
    &&& l.enc_outer == side[0]
    &&& l.encoders@ == enc_left.subrange(0, 3) + enc_right.subrange(0, 3)
    &&& l.leds_outer == side[1]
    &&& l.leds@ == leds
    &&& l.datarefs == mid[0]
    &&& l.events == mid[1]
    &&& l.data_spark == spark[0]
    &&& l.redraw_spark == spark[1]
    &&& l.footer == rows[4]
}

/// Put the parts of the layout's splits in their places.
pub fn place(
    rows: &Vec<Rect>,
    top: &Vec<Rect>,
    side: &Vec<Rect>,
    keys: Vec<Rect>,
    enc_left: &Vec<Rect>,
    enc_right: &Vec<Rect>,
    leds: Vec<Rect>,
    mid: &Vec<Rect>,
    spark: &Vec<Rect>,
) -> (l: LayoutRects)
    requires
        rows@.len() == 5,
        top@.len() == 2,
        side@.len() == 2,
        enc_left@.len() == 3,
        enc_right@.len() == 3,
        mid@.len() == 2,
        spark@.len() == 2,
    ensures
        spec_place(rows@, top@, side@, keys@, enc_left@, enc_right@, leds@, mid@, spark@, l),
{
    let mut encoders: Vec<Rect> = Vec::new();
    encoders.push(enc_left[0]);
    encoders.push(enc_left[1]);
    encoders.push(enc_left[2]);
    encoders.push(enc_right[0]);
    encoders.push(enc_right[1]);
    encoders.push(enc_right[2]);
    assert(encoders@ =~= enc_left@.subrange(0, 3) + enc_right@.subrange(0, 3));
    LayoutRects {
        header: rows[0],
        keys_outer: top[0],
        keys,
        enc_outer: side[0],
        encoders,
        leds_outer: side[1],
        leds,
        datarefs: mid[0],
        events: mid[1],
        data_spark: spark[0],
        redraw_spark: spark[1],
        footer: rows[4],
    }
}

/// Where the mirror's parts sit, whatever the layout solver settles:
/// header and footer span the area's width; the key panel, the encoder and
/// LED panels, the live values and input log, and the graphs lie within
/// the area; the encoder panel sits above the LED panel in the column
/// beside the keys, within the key panel's rows; the values and log share
/// rows, as do the two graphs; each key lies in the key panel, the keys of
/// one grid row share rows; encoder cells lie in the encoder panel, e0..e2
/// in one column and e3..e5 in another; LEDs lie in the LED panel, in one
/// column.
pub open spec fn layout_placed(l: LayoutRects, area: Rect) -> bool {
    &&& within(l.header, area) && same_columns(l.header, area)
    &&& within(l.footer, area) && same_columns(l.footer, area)
    &&& within(l.keys_outer, area) && within(l.enc_outer, area) && within(l.leds_outer, area)
    &&& within(l.datarefs, area) && within(l.events, area)
    &&& within(l.data_spark, area) && within(l.redraw_spark, area)
    &&& same_rows(l.datarefs, l.events) && same_rows(l.data_spark, l.redraw_spark)
    &&& same_columns(l.enc_outer, l.leds_outer)
    &&& l.keys_outer.y <= l.enc_outer.y
    &&& l.leds_outer.y + l.leds_outer.height <= l.keys_outer.y + l.keys_outer.height
    &&& forall|i: int| 0 <= i < 12 ==> within(#[trigger] l.keys@[i], l.keys_outer)
    &&& forall|r: int, c: int, d: int|
        0 <= r < 3 && 0 <= c < 4 && 0 <= d < 4 ==> same_rows(
            #[trigger] l.keys@[r * 4 + c],
            #[trigger] l.keys@[r * 4 + d],
        )
    &&& forall|i: int| 0 <= i < 6 ==> within(#[trigger] l.encoders@[i], l.enc_outer)
    &&& same_columns(l.encoders@[0], l.encoders@[1]) && same_columns(l.encoders@[0], l.encoders@[2])
    &&& same_columns(l.encoders@[3], l.encoders@[4]) && same_columns(l.encoders@[3], l.encoders@[5])
    &&& forall|i: int| 0 <= i < 8 ==> within(#[trigger] l.leds@[i], l.leds_outer)
    &&& forall|i: int| 0 <= i < 8 ==> same_columns(#[trigger] l.leds@[i], l.leds@[0])
}

/// Lay the mirror out over `area`: each split hands the solver the
/// constraints of `spec_cut` (the key grid 3 x 4 by `grid`), and `place`
/// puts the parts in their fields.
pub fn layout(area: Rect) -> (l: LayoutRects)
    ensures
        layout_ok(l),
        rect_ok(area) ==> layout_placed(l, area),
{
    let rows = split(area, Direction::Vertical, cut_constraints(Cut::Rows).as_slice());
    let halves = cut_constraints(Cut::Halves);
    let top = split(rows[1], Direction::Horizontal, cut_constraints(Cut::Top).as_slice());
    let right = split(top[1], Direction::Vertical, cut_constraints(Cut::Side).as_slice());

    let keys = grid(bordered_inner(top[0]), 3, 4);

    // Encoders: left column e0..e2, right column e3..e5.
    let enc_cols = split(bordered_inner(right[0]), Direction::Horizontal, halves.as_slice());
    let thirds = cut_constraints(Cut::Thirds);
    let left_col = split(enc_cols[0], Direction::Vertical, thirds.as_slice());
    let right_col = split(enc_cols[1], Direction::Vertical, thirds.as_slice());

    let leds = split(bordered_inner(right[1]), Direction::Vertical, cut_constraints(Cut::Eighths).as_slice());

    let mid = split(rows[2], Direction::Horizontal, halves.as_slice());
    let spark = split(rows[3], Direction::Horizontal, halves.as_slice());

    let ghost keys_v = keys@;
    let ghost leds_v = leds@;
    let l = place(&rows, &top, &right, keys, &left_col, &right_col, leds, &mid, &spark);
    assert(l.encoders@[0] == left_col@[0]);
    assert(l.encoders@[1] == left_col@[1]);
    assert(l.encoders@[2] == left_col@[2]);
    assert(l.encoders@[3] == right_col@[0]);
    assert(l.encoders@[4] == right_col@[1]);
    assert(l.encoders@[5] == right_col@[2]);
    proof {
        let keys = keys_v;
        let leds = leds_v;
        if rect_ok(area) {
            assert(within(spec_bordered_inner(top@[0]), top@[0]));
            assert forall|i: int| 0 <= i < 12 implies within(#[trigger] l.keys@[i], l.keys_outer) by {
                assert(within(keys[i], spec_bordered_inner(top@[0])));
            }
            assert forall|r: int, c: int, d: int|
                0 <= r < 3 && 0 <= c < 4 && 0 <= d < 4 implies same_rows(
                    #[trigger] l.keys@[r * 4 + c],
                    #[trigger] l.keys@[r * 4 + d],
                ) by {
                assert(same_rows(keys[r * 4 + c], keys[r * 4 + d]));
            }
            let ei = spec_bordered_inner(right@[0]);
            assert(within(ei, right@[0]));
            assert(within(enc_cols@[0], ei) && within(enc_cols@[1], ei));
            assert forall|i: int| 0 <= i < 6 implies within(#[trigger] l.encoders@[i], l.enc_outer) by {
                if i < 3 {
                    assert(l.encoders@[i] == left_col@[i]);
                    assert(within(left_col@[i], enc_cols@[0]));
                } else {
                    assert(l.encoders@[i] == right_col@[i - 3]);
                    assert(within(right_col@[i - 3], enc_cols@[1]));
                }
            }
            assert(same_columns(left_col@[0], enc_cols@[0]) && same_columns(left_col@[1], enc_cols@[0])
                && same_columns(left_col@[2], enc_cols@[0]));
            assert(same_columns(right_col@[0], enc_cols@[1]) && same_columns(right_col@[1], enc_cols@[1])
                && same_columns(right_col@[2], enc_cols@[1]));
            let li = spec_bordered_inner(right@[1]);
            assert(within(li, right@[1]));
            assert forall|i: int| 0 <= i < 8 implies within(#[trigger] l.leds@[i], l.leds_outer) by {
                assert(within(leds[i], li));
            }
            assert forall|i: int| 0 <= i < 8 implies same_columns(#[trigger] l.leds@[i], l.leds@[0]) by {
                assert(same_columns(leds[i], li));
                assert(same_columns(leds[0], li));
            }
            assert(within(rows@[1], area) && within(rows@[2], area) && within(rows@[3], area));
            assert(within(top@[0], rows@[1]) && within(top@[1], rows@[1]));
            assert(same_rows(top@[0], rows@[1]) && same_rows(top@[1], rows@[1]));
            assert(within(right@[0], top@[1]) && within(right@[1], top@[1]));
            assert(same_columns(right@[0], top@[1]) && same_columns(right@[1], top@[1]));
            assert(within(mid@[0], rows@[2]) && within(mid@[1], rows@[2]));
            assert(within(spark@[0], rows@[3]) && within(spark@[1], rows@[3]));
        }
    }
    l
}

impl LayoutRects {
    /// The clickable tiles of the layout.
    pub fn hits(&self) -> (h: Hits)
        requires
            layout_ok(*self),
        ensures
            hits_ok(h),
            h.keys@ == self.keys@,
            h.encoders@ == self.encoders@,
            h.enc_outer == self.enc_outer,
            h.leds@ == self.leds@,
    {
        Hits {
            keys: copy_rects(&self.keys),
            encoders: copy_rects(&self.encoders),
            enc_outer: self.enc_outer,
            leds: copy_rects(&self.leds),
        }
    }
}

fn copy_rects(v: &Vec<Rect>) -> (r: Vec<Rect>)
    ensures
        r@ == v@,
{
    let mut r: Vec<Rect> = Vec::new();
    let mut i: usize = 0;
    while i < v.len()
        invariant
            i <= v@.len(),
            r@ == v@.subrange(0, i as int),
        decreases v@.len() - i,
    {
        r.push(v[i]);
        assert(v@.subrange(0, i + 1) =~= v@.subrange(0, i as int).push(v@[i as int]));
        i = i + 1;
    }
    assert(v@.subrange(0, v@.len() as int) =~= v@);
    r
}

/// The layout is complete and every rectangle is in range.
pub open spec fn hits_ok(h: Hits) -> bool {
    &&& h.keys@.len() == 12
    &&& h.encoders@.len() == 6
    &&& h.leds@.len() == 8
    &&& rect_ok(h.enc_outer)
    &&& forall|i: int| 0 <= i < 12 ==> rect_ok(#[trigger] h.keys@[i])
    &&& forall|i: int| 0 <= i < 6 ==> rect_ok(#[trigger] h.encoders@[i])
    &&& forall|i: int| 0 <= i < 8 ==> rect_ok(#[trigger] h.leds@[i])
}

/// The first of `rs` that (x, y) hits.
pub open spec fn first_hit(rs: Seq<Rect>, x: u16, y: u16) -> Option<int>
    decreases rs.len(),
{
    if rs.len() == 0 {
        None
    } else {
        match first_hit(rs.drop_last(), x, y) {
            Some(i) => Some(i),
            None => if spec_hit(rs.last(), x, y) {
                Some(rs.len() - 1)
            } else {
                None
            },
        }
    }
}

proof fn lemma_first_hit_prefix(rs: Seq<Rect>, x: u16, y: u16, k: int)
    requires
        0 <= k <= rs.len(),
        first_hit(rs.subrange(0, k), x, y) is Some,
    ensures
        first_hit(rs, x, y) == first_hit(rs.subrange(0, k), x, y),
    decreases rs.len() - k,
{
    if k < rs.len() {
        assert(rs.subrange(0, k + 1).drop_last() =~= rs.subrange(0, k));
        lemma_first_hit_prefix(rs, x, y, k + 1);
    } else {
        assert(rs.subrange(0, k) =~= rs);
    }
}

fn find_hit(rs: &Vec<Rect>, x: u16, y: u16) -> (r: Option<usize>)
    requires
        forall|i: int| 0 <= i < rs@.len() ==> rect_ok(#[trigger] rs@[i]),
    ensures
        match r {
            Some(i) => first_hit(rs@, x, y) == Some(i as int) && i < rs@.len(),
            None => first_hit(rs@, x, y) is None,
        },
{
    let mut i: usize = 0;
    while i < rs.len()
        invariant
            i <= rs@.len(),
            forall|j: int| 0 <= j < rs@.len() ==> rect_ok(#[trigger] rs@[j]),
            first_hit(rs@.subrange(0, i as int), x, y) is None,
        decreases rs@.len() - i,
    {
        assert(rs@.subrange(0, i + 1).drop_last() =~= rs@.subrange(0, i as int));
        if hit(rs[i], x, y) {
            proof {
                lemma_first_hit_prefix(rs@, x, y, i + 1);
            }
            return Some(i);
        }
        i = i + 1;
    }
    assert(rs@.subrange(0, rs@.len() as int) =~= rs@);
    None
}

/// A mouse input, as far as the mirror cares.
#[derive(Debug, Clone, Copy, PartialEq, Eq, Structural)]
pub enum Mouse {
    LeftDown,
    ScrollUp,
    ScrollDown,
    Other,
}

/// The encoder a mouse input at (x, y) aims at: the cell under the pointer,
/// else the focused one anywhere in the encoders panel.
pub open spec fn mouse_target(h: Hits, x: u16, y: u16, focus: u8) -> Option<u8> {
    match first_hit(h.encoders@, x, y) {
        Some(i) => Some(i as u8),
        None => if spec_hit(h.enc_outer, x, y) {
            Some(focus)
        } else {
            None
        },
    }
}

/// The events and new focus for a mouse input: a click taps the key or LED
/// under the pointer, else pushes (and focuses) the aimed encoder; the
/// wheel turns (and focuses) it, up clockwise.
pub open spec fn spec_mouse_input(kind: Mouse, h: Hits, x: u16, y: u16, focus: u8) -> (Seq<Event>, u8) {
    let target = mouse_target(h, x, y, focus);
    match kind {
        Mouse::LeftDown => match first_hit(h.keys@, x, y) {
            Some(i) => (
                tap(
                    Event::Key { index: i as u8, pressed: true },
                    Event::Key { index: i as u8, pressed: false },
                ),
                focus,
            ),
            None => match first_hit(h.leds@, x, y) {
                Some(i) => (
                    tap(
                        Event::Button { index: i as u8, pressed: true },
                        Event::Button { index: i as u8, pressed: false },
                    ),
                    focus,
                ),
                None => match target {
                    Some(t) => (
                        tap(
                            Event::EncoderPress { index: t, pressed: true },
                            Event::EncoderPress { index: t, pressed: false },
                        ),
                        t,
                    ),
                    None => (Seq::empty(), focus),
                },
            },
        },
        Mouse::ScrollUp => match target {
            Some(t) => (seq![Event::EncoderTurn { index: t, clockwise: true }], t),
            None => (Seq::empty(), focus),
        },
        Mouse::ScrollDown => match target {
            Some(t) => (seq![Event::EncoderTurn { index: t, clockwise: false }], t),
            None => (Seq::empty(), focus),
        },
        Mouse::Other => (Seq::empty(), focus),
    }
}

/// `first_hit` is the first rectangle that contains the point: it contains
/// it and none before it does; with none, no rectangle contains it.
pub proof fn lemma_first_hit(rs: Seq<Rect>, x: u16, y: u16)
    ensures
        first_hit(rs, x, y) matches Some(i) ==> 0 <= i < rs.len() && spec_hit(rs[i], x, y) && forall|j: int|
            0 <= j < i ==> !spec_hit(#[trigger] rs[j], x, y),
        first_hit(rs, x, y) is None ==> forall|j: int| 0 <= j < rs.len() ==> !spec_hit(#[trigger] rs[j], x, y),
    decreases rs.len(),
{
    if rs.len() > 0 {
        lemma_first_hit(rs.drop_last(), x, y);
        assert forall|j: int| 0 <= j < rs.len() - 1 implies rs.drop_last()[j] == rs[j] by {}
    }
}

/// What the mouse does: a click on a key taps that key and on an LED taps
/// that button, keeping the focus; elsewhere in the encoder panel a click
/// pushes, and the wheel turns (up clockwise, down counter-clockwise), the
/// encoder under the pointer or else the focused one, which then has the
/// focus. Anything else does nothing.
pub proof fn lemma_mouse_actions(h: Hits, x: u16, y: u16, f: u8)
    ensures
        first_hit(h.keys@, x, y) matches Some(k) ==> spec_mouse_input(Mouse::LeftDown, h, x, y, f) == (
            seq![Event::Key { index: k as u8, pressed: true }, Event::Key { index: k as u8, pressed: false }],
            f,
        ),
        first_hit(h.keys@, x, y) is None ==> (first_hit(h.leds@, x, y) matches Some(b) ==> spec_mouse_input(
            Mouse::LeftDown,
            h,
            x,
            y,
            f,
        ) == (
            seq![Event::Button { index: b as u8, pressed: true }, Event::Button { index: b as u8, pressed: false }],
            f,
        )),
        first_hit(h.encoders@, x, y) matches Some(i) ==> mouse_target(h, x, y, f) == Some(i as u8),
        first_hit(h.encoders@, x, y) is None && spec_hit(h.enc_outer, x, y) ==> mouse_target(h, x, y, f)
            == Some(f),
        first_hit(h.encoders@, x, y) is None && !spec_hit(h.enc_outer, x, y) ==> mouse_target(h, x, y, f)
            is None,
        first_hit(h.keys@, x, y) is None && first_hit(h.leds@, x, y) is None ==> (mouse_target(h, x, y, f)
            matches Some(t) ==> spec_mouse_input(Mouse::LeftDown, h, x, y, f) == (
            seq![Event::EncoderPress { index: t, pressed: true }, Event::EncoderPress { index: t, pressed: false }],
            t,
        )),
        mouse_target(h, x, y, f) matches Some(t) ==> spec_mouse_input(Mouse::ScrollUp, h, x, y, f) == (
            seq![Event::EncoderTurn { index: t, clockwise: true }],
            t,
        ) && spec_mouse_input(Mouse::ScrollDown, h, x, y, f) == (
            seq![Event::EncoderTurn { index: t, clockwise: false }],
            t,
        ),
        mouse_target(h, x, y, f) is None ==> spec_mouse_input(Mouse::ScrollUp, h, x, y, f) == (
            Seq::<Event>::empty(),
            f,
        ) && spec_mouse_input(Mouse::ScrollDown, h, x, y, f) == (Seq::<Event>::empty(), f),
        spec_mouse_input(Mouse::Other, h, x, y, f) == (Seq::<Event>::empty(), f),
{
}

/// Decide what a mouse input injects into the deck.
pub fn mouse_input(kind: Mouse, h: &Hits, x: u16, y: u16, focus: u8) -> (r: (Vec<Event>, u8))
    requires
        hits_ok(*h),
        focus < 6,
    ensures
        r.0@ == spec_mouse_input(kind, *h, x, y, focus).0,
        r.1 == spec_mouse_input(kind, *h, x, y, focus).1,
        r.1 < 6,
{
    let target: Option<u8> = match find_hit(&h.encoders, x, y) {
        Some(i) => Some(i as u8),
        None => if hit(h.enc_outer, x, y) {
            Some(focus)
        } else {
            None
        },
    };
    match kind {
        Mouse::LeftDown => match find_hit(&h.keys, x, y) {
            Some(i) => (
                tap_events(
                    Event::Key { index: i as u8, pressed: true },
                    Event::Key { index: i as u8, pressed: false },
                ),
                focus,
            ),
            None => match find_hit(&h.leds, x, y) {
                Some(i) => (
                    tap_events(
                        Event::Button { index: i as u8, pressed: true },
                        Event::Button { index: i as u8, pressed: false },
                    ),
                    focus,
                ),
                None => match target {
                    Some(t) => (
                        tap_events(
                            Event::EncoderPress { index: t, pressed: true },
                            Event::EncoderPress { index: t, pressed: false },
                        ),
                        t,
                    ),
                    None => (Vec::new(), focus),
                },
            },
        },
        Mouse::ScrollUp => match target {
            Some(t) => {
                let mut v: Vec<Event> = Vec::new();
                v.push(Event::EncoderTurn { index: t, clockwise: true });
                assert(v@ =~= seq![Event::EncoderTurn { index: t, clockwise: true }]);
                (v, t)
            },
            None => (Vec::new(), focus),
        },
        Mouse::ScrollDown => match target {
            Some(t) => {
                let mut v: Vec<Event> = Vec::new();
                v.push(Event::EncoderTurn { index: t, clockwise: false });
                assert(v@ =~= seq![Event::EncoderTurn { index: t, clockwise: false }]);
                (v, t)
            },
            None => (Vec::new(), focus),
        },
        Mouse::Other => (Vec::new(), focus),
    }
}

/// The last `HIST` samples of `q` followed by `v`.
pub open spec fn spec_push_sample(q: Seq<u64>, v: u64) -> Seq<u64> {
    let s = q.push(v);
    if s.len() > HIST {
        s.subrange(s.len() - HIST, s.len() as int)
    } else {
        s
    }
}

/// A throughput history keeps the latest 120 samples: a new sample goes
/// last, and once 120 are held the oldest drops out.
pub proof fn lemma_history(q: Seq<u64>, v: u64)
    ensures
        HIST == 120,
        spec_push_sample(q, v).last() == v,
        spec_push_sample(q, v).len() == if q.len() + 1 > 120 {
            120
        } else {
            q.len() + 1
        },
        q.len() < 120 ==> spec_push_sample(q, v) == q.push(v),
        q.len() == 120 ==> spec_push_sample(q, v) == q.drop_first().push(v),
{
    if q.len() == 120 {
        assert(q.push(v).subrange(1, 121) =~= q.drop_first().push(v));
    }
}

/// Record a sample, keeping the most recent `HIST`.
pub fn push_sample(q: &mut VecDeque<u64>, v: u64)
    ensures
        final(q)@ == spec_push_sample(old(q)@, v),
{
    q.push_back(v);
    let ghost s = q@;
    assert(s.subrange(0, s.len() as int) =~= s);
    while q.len() > HIST
        invariant
            s == old(q)@.push(v),
            q@.len() <= s.len(),
            s.len() > HIST ==> q@.len() >= HIST,
            s.len() <= HIST ==> q@ == s,
            q@ == s.subrange(s.len() - q@.len(), s.len() as int),
        decreases q@.len(),
    {
        let _ = q.pop_front();
        assert(q@ =~= s.subrange(s.len() - q@.len(), s.len() as int));
    }
}

/// Roughly half-bright, for an unlit annunciator.
pub fn dim(c: Rgb) -> (r: Rgb)
    ensures
        r[0] == c[0] / 2,
        r[1] == c[1] / 2,
        r[2] == c[2] / 2,
{
    [c[0] / 2, c[1] / 2, c[2] / 2]
}

/// The last two `/`-separated segments of a dataref path (all of it when
/// it has fewer than two separators).
pub open spec fn spec_short(s: Seq<char>) -> Seq<char> {
    match last_index_of(s, '/') {
        None => s,
        Some(i) => match last_index_of(s.subrange(0, i), '/') {
            None => s,
            Some(j) => s.subrange(j + 1, s.len() as int),
        },
    }
}

/// A dataref path shows as its last two segments: for any segments `b`
/// and `c` without `/`, any path that ends `/b/c` shows `b/c`; a path with
/// at most one `/` shows whole.
pub proof fn lemma_short_path(a: Seq<char>, b: Seq<char>, c: Seq<char>)
    requires
        forall|k: int| 0 <= k < b.len() ==> #[trigger] b[k] != '/',
        forall|k: int| 0 <= k < c.len() ==> #[trigger] c[k] != '/',
    ensures
        spec_short(a + seq!['/'] + b + seq!['/'] + c) == b + seq!['/'] + c,
        spec_short(b + seq!['/'] + c) == b + seq!['/'] + c,
        spec_short(c) == c,
{
    let s = a + seq!['/'] + b + seq!['/'] + c;
    let i = (a.len() + 1 + b.len()) as int;
    let j = a.len() as int;
    assert forall|k: int| i < k < s.len() implies s[k] != '/' by {
        assert(s[k] == c[k - i - 1]);
    }
    lemma_last_index_of_unique(s, '/', Some(i));
    let t = s.subrange(0, i);
    assert forall|k: int| j < k < t.len() implies t[k] != '/' by {
        assert(t[k] == b[k - j - 1]);
    }
    lemma_last_index_of_unique(t, '/', Some(j));
    assert(s.subrange(j + 1, s.len() as int) =~= b + seq!['/'] + c);
    let s2 = b + seq!['/'] + c;
    let i2 = b.len() as int;
    assert forall|k: int| i2 < k < s2.len() implies s2[k] != '/' by {
        assert(s2[k] == c[k - i2 - 1]);
    }
    lemma_last_index_of_unique(s2, '/', Some(i2));
    assert forall|k: int| 0 <= k < s2.subrange(0, i2).len() implies s2.subrange(0, i2)[k] != '/' by {
        assert(s2.subrange(0, i2)[k] == b[k]);
    }
    lemma_last_index_of_unique(s2.subrange(0, i2), '/', None);
    lemma_last_index_of_unique(c, '/', None);
}

fn last_slash_before(cs: &Vec<char>, end: usize) -> (r: Option<usize>)
    requires
        end <= cs@.len(),
    ensures
        match r {
            Some(i) => last_index_of(cs@.subrange(0, end as int), '/') == Some(i as int) && i < end,
            None => last_index_of(cs@.subrange(0, end as int), '/') is None,
        },
{
    let ghost s = cs@.subrange(0, end as int);
    let mut j: usize = end;
    while j > 0 && cs[j - 1] != '/'
        invariant
            j <= end <= cs@.len(),
            s == cs@.subrange(0, end as int),
            forall|k: int| j <= k < end ==> cs@[k] != '/',
        decreases j,
    {
        j = j - 1;
    }
    if j == 0 {
        proof {
            lemma_last_index_of_unique(s, '/', None);
        }
        None
    } else {
        proof {
            lemma_last_index_of_unique(s, '/', Some(j - 1));
        }
        Some(j - 1)
    }
}

/// Trim a dataref path to its last two segments for display.
pub fn short(name: &str) -> (r: String)
    ensures
        r@ == spec_short(name@),
{
    let cs = chars_of(name);
    let n = cs.len();
    assert(cs@.subrange(0, n as int) =~= cs@);
    match last_slash_before(&cs, n) {
        None => String::from_str(name),
        Some(i) => {
            assert(cs@.subrange(0, i as int) =~= cs@.subrange(0, n as int).subrange(0, i as int));
            match last_slash_before(&cs, i) {
                None => String::from_str(name),
                Some(j) => String::from_str(name.substring_char(j + 1, n)),
            }
        },
    }
}

/// Whether a status text reports a live connection.
pub open spec fn spec_is_connected(text: Seq<char>) -> bool {
    text.len() >= 9 && text.subrange(0, 9) == "connected"@
}

/// Whether a status text reports a live connection (it starts `connected`).
pub fn is_connected(text: &str) -> (r: bool)
    ensures
        r == spec_is_connected(text@),
{
    let cs = chars_of(text);
    let want = chars_of("connected");
    proof {
        reveal_strlit("connected");
    }
    assert(want@.len() == 9);
    if cs.len() < want.len() {
        return false;
    }
    let mut i: usize = 0;
    while i < want.len()
        invariant
            i <= want@.len() == 9,
            cs@.len() >= 9,
            cs@ == text@,
            want@ == "connected"@,
            forall|k: int| 0 <= k < i ==> cs@[k] == want@[k],
        decreases want@.len() - i,
    {
        if cs[i] != want[i] {
            assert(cs@.subrange(0, 9)[i as int] != "connected"@[i as int]);
            assert(cs@.subrange(0, 9) != "connected"@);
            return false;
        }
        i = i + 1;
    }
    assert(cs@.subrange(0, 9) =~= want@);
    true
}

} // verus!
