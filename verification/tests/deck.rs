use rustdecks::config::{
    default_brightness, Action, ConfigError, Device, Draw, Encoder, Key, Led, Page, Profile, Sim,
};
use rustdecks::deck::{
    color_of, contains_id, draw_kind, merge, push_unique, style_colors, subscription, Deck, DrawKind,
    Effect, Input, Origin, Surface,
};
use rustdecks::device::Event;
use rustdecks::sim::{DataValue, Update};

fn draw() -> Draw {
    Draw {
        text: None,
        value: None,
        format: None,
        scale: None,
        offset: None,
        text_color: None,
        bg_color: None,
        icon: None,
        lit_color: None,
    }
}

fn valued(v: &str) -> Draw {
    let mut d = draw();
    d.value = Some(v.to_string());
    d
}

fn enc(draw: Option<Draw>, cw: Option<Action>, ccw: Option<Action>, press: Option<Action>) -> Encoder {
    Encoder { draw, turn_cw: cw, turn_ccw: ccw, press }
}

fn cmd(c: &str) -> Option<Action> {
    Some(Action::Command { command: c.to_string() })
}

fn goto(p: &str) -> Option<Action> {
    Some(Action::Page { page: p.to_string() })
}

/// Two pages; `main` overrides the profile's e0 and inherits e1 and b0.
fn profile() -> Profile {
    let main = Page {
        keys: vec![
            (0, Key { draw: Some(valued("sim/a[2]")), press: cmd("sim/cmd/a"), long_press: None }),
            (
                1,
                Key {
                    draw: None,
                    press: Some(Action::SetDataref { dataref: "sim/w[4]".to_string(), value: 42 }),
                    long_press: None,
                },
            ),
            (2, Key { draw: None, press: goto("radio"), long_press: None }),
        ],
        encoders: vec![(
            "e0".to_string(),
            enc(Some(valued("sim/page_e0")), cmd("page/up"), cmd("page/down"), None),
        )],
        leds: vec![],
    };
    let radio = Page {
        keys: vec![(0, Key { draw: None, press: goto("main"), long_press: None })],
        encoders: vec![],
        leds: vec![("b0".to_string(), Led { color: Some("blue".to_string()), press: None })],
    };
    Profile {
        device: Device::LoupedeckLive,
        brightness: default_brightness(),
        sim: Sim::default(),
        home: "main".to_string(),
        pages: vec![("main".to_string(), main), ("radio".to_string(), radio)],
        encoders: vec![
            ("e0".to_string(), enc(Some(valued("sim/default_e0")), cmd("def/up"), None, None)),
            ("e1".to_string(), enc(Some(valued("sim/a")), None, None, cmd("def/push"))),
        ],
        leds: vec![("b0".to_string(), Led { color: Some("#ff0000".to_string()), press: cmd("led/b0") })],
    }
}

fn effect(e: Option<Effect>) -> Option<(String, Option<u64>)> {
    match e {
        Some(Effect::RunCommand(c)) => Some((c, None)),
        Some(Effect::SetDataref { name, value }) => Some((name, Some(value))),
        None => None,
    }
}

#[test]
fn starts_on_home_page() {
    let d = Deck::new(profile()).unwrap();
    assert_eq!(d.current_page_name(), "main");
    assert_eq!(d.profile().pages.len(), 2);
}

#[test]
fn invalid_profile_is_refused() {
    let mut p = profile();
    p.home = "nowhere".to_string();
    assert!(matches!(Deck::new(p), Err(ConfigError::UndefinedHome(h)) if h == "nowhere"));
}

#[test]
fn keys_act_on_press_edges_only() {
    let mut d = Deck::new(profile()).unwrap();
    let down = Event::Key { index: 0, pressed: true };
    let up = Event::Key { index: 0, pressed: false };
    assert_eq!(effect(d.handle_input(down)), Some(("sim/cmd/a".to_string(), None)));
    // held: a repeated press report does nothing
    assert_eq!(effect(d.handle_input(down)), None);
    assert_eq!(effect(d.handle_input(up)), None);
    assert_eq!(effect(d.handle_input(down)), Some(("sim/cmd/a".to_string(), None)));
    // a key without an entry does nothing
    assert_eq!(effect(d.handle_input(Event::Key { index: 11, pressed: true })), None);
}

#[test]
fn set_dataref_names_the_whole_dataref() {
    let mut d = Deck::new(profile()).unwrap();
    let e = d.handle_input(Event::Key { index: 1, pressed: true });
    assert_eq!(effect(e), Some(("sim/w".to_string(), Some(42))));
}

#[test]
fn page_actions_are_pending_until_taken() {
    let mut d = Deck::new(profile()).unwrap();
    assert!(d.take_pending().is_none());
    assert!(d.handle_input(Event::Key { index: 2, pressed: true }).is_none());
    let p = d.take_pending().unwrap();
    assert_eq!(p, "radio");
    assert!(d.take_pending().is_none());
    assert!(d.load_page(&p));
    assert_eq!(d.current_page_name(), "radio");
    assert!(!d.load_page(&"missing".to_string()));
    assert_eq!(d.current_page_name(), "radio");
}

#[test]
fn encoders_merge_page_over_profile() {
    let mut d = Deck::new(profile()).unwrap();
    // e0 is the page's: turning acts on every detent, no edge tracking
    let cw = Event::EncoderTurn { index: 0, clockwise: true };
    assert_eq!(effect(d.handle_input(cw)), Some(("page/up".to_string(), None)));
    assert_eq!(effect(d.handle_input(cw)), Some(("page/up".to_string(), None)));
    assert_eq!(
        effect(d.handle_input(Event::EncoderTurn { index: 0, clockwise: false })),
        Some(("page/down".to_string(), None))
    );
    // e1 is inherited from the profile
    assert_eq!(
        effect(d.handle_input(Event::EncoderPress { index: 1, pressed: true })),
        Some(("def/push".to_string(), None))
    );
    assert_eq!(effect(d.handle_input(Event::EncoderTurn { index: 1, clockwise: true })), None);
    assert_eq!(effect(d.handle_input(Event::EncoderTurn { index: 5, clockwise: true })), None);
    // b0 is inherited on main, the page's own on radio
    assert_eq!(
        effect(d.handle_input(Event::Button { index: 0, pressed: true })),
        Some(("led/b0".to_string(), None))
    );
    assert_eq!(d.led_colors(), vec![(0, [255, 0, 0])]);
    assert!(d.load_page(&"radio".to_string()));
    assert_eq!(d.led_colors(), vec![(0, [40, 90, 220])]);
    assert!(d.encoder(0).unwrap().turn_ccw.is_none());
    assert!(d.led(0).unwrap().press.is_none());
}

#[test]
fn merge_keeps_page_entries_first() {
    let defaults = vec![("e0".to_string(), ()), ("e1".to_string(), ()), ("e0".to_string(), ())];
    let page = vec![("e1".to_string(), ()), ("e4".to_string(), ())];
    let m = merge(&defaults, &page);
    assert_eq!(
        m,
        vec![
            ("e1".to_string(), Origin::Page(0)),
            ("e4".to_string(), Origin::Page(1)),
            ("e0".to_string(), Origin::Profile(0)),
        ]
    );
}

#[test]
fn press_state_is_tracked_per_input() {
    let mut d = Deck::new(profile()).unwrap();
    assert!(d.edge(3, true, Input::Key));
    assert!(!d.edge(3, true, Input::Key));
    assert!(d.edge(3, true, Input::Btn));
    assert!(!d.edge(3, false, Input::Enc));
    assert!(d.edge(3, true, Input::Enc));
}

#[test]
fn readings_come_from_resolved_ids_and_live_values() {
    let mut d = Deck::new(profile()).unwrap();
    let gauge = d.key_draw(0).unwrap();
    assert_eq!(d.reading(gauge), None);
    assert_eq!(d.cached_dataref_id("sim/a"), None);
    d.remember_dataref_id("sim/a".to_string(), Some(7));
    assert_eq!(d.cached_dataref_id("sim/a"), Some(Some(7)));
    let gauge = d.key_draw(0).unwrap();
    assert_eq!(d.reading(gauge), None);
    d.apply_update(Update { id: 7, value: DataValue::Array(vec![10, 20, 30]) });
    let gauge = d.key_draw(0).unwrap();
    assert_eq!(d.reading(gauge), Some(30));
    d.apply_update(Update { id: 7, value: DataValue::Num(99) });
    let gauge = d.key_draw(0).unwrap();
    assert_eq!(d.reading(gauge), Some(99));
    assert!(matches!(d.value(7), Some(DataValue::Num(99))));
    assert!(d.value(8).is_none());
    d.remember_dataref_id("sim/none".to_string(), None);
    assert_eq!(d.cached_dataref_id("sim/none"), Some(None));
    d.remember_command_id("sim/cmd/a".to_string(), Some(3));
    assert_eq!(d.cached_command_id("sim/cmd/a"), Some(Some(3)));
    assert_eq!(d.cached_command_id("sim/cmd/b"), None);
}

#[test]
fn redraw_only_on_changed_content() {
    let mut d = Deck::new(profile()).unwrap();
    let t = "GEN\u{0}1".to_string();
    assert!(d.needs_redraw(Surface::Key(4), &t));
    d.mark_drawn(Surface::Key(4), t.clone());
    assert!(!d.needs_redraw(Surface::Key(4), &t));
    assert!(d.needs_redraw(Surface::Key(4), &"GEN\u{0}2".to_string()));
    assert!(d.needs_redraw(Surface::Key(5), &t));
    assert!(d.needs_redraw(Surface::Left, &t));
    d.mark_drawn(Surface::Left, t.clone());
    assert!(!d.needs_redraw(Surface::Left, &t));
    assert!(d.needs_redraw(Surface::Right, &t));
    // loading a page forgets what was drawn
    assert!(d.load_page(&"main".to_string()));
    assert!(d.needs_redraw(Surface::Key(4), &t));
    assert!(d.needs_redraw(Surface::Left, &t));
}

#[test]
fn page_value_refs_lists_keys_then_encoders() {
    let d = Deck::new(profile()).unwrap();
    assert_eq!(
        d.page_value_refs(),
        vec!["sim/a[2]".to_string(), "sim/page_e0".to_string(), "sim/a".to_string()]
    );
}

#[test]
fn subscription_ids_are_unique() {
    let mut ids = vec![];
    push_unique(&mut ids, 5);
    push_unique(&mut ids, 9);
    push_unique(&mut ids, 5);
    assert_eq!(ids, vec![5, 9]);
    assert!(contains_id(&ids, 9));
    assert!(!contains_id(&ids, 1));
}

#[test]
fn tile_kinds_and_colours() {
    let mut d = draw();
    assert!(matches!(draw_kind(&d), DrawKind::Text));
    d.lit_color = Some("nonsense".to_string());
    assert!(matches!(draw_kind(&d), DrawKind::Text));
    d.lit_color = Some("#0f0".to_string());
    assert!(matches!(draw_kind(&d), DrawKind::Annunciator([0, 255, 0])));
    d.icon = Some("not-a-glyph".to_string());
    assert!(matches!(draw_kind(&d), DrawKind::Annunciator(_)));
    d.icon = Some("radio".to_string());
    assert!(matches!(draw_kind(&d), DrawKind::Icon('\u{e585}')));
    d.icon = None;
    d.lit_color = Some("#é0".to_string());
    assert!(matches!(draw_kind(&d), DrawKind::Text));
    assert_eq!(color_of(&None), None);
    assert_eq!(color_of(&Some("white".to_string())), Some([255, 255, 255]));
    let mut s = draw();
    s.text_color = Some("red".to_string());
    s.bg_color = Some("#000000".to_string());
    assert_eq!(style_colors(&s), (Some([220, 40, 40]), Some([0, 0, 0])));
    s.bg_color = Some("#0é000".to_string());
    assert_eq!(style_colors(&s), (Some([220, 40, 40]), None));
}

#[test]
fn inherited_page_switches_are_not_checked() {
    // A profile-wide encoder may name a page that does not exist: the
    // profile is accepted, and loading that page is refused.
    let mut p = profile();
    p.encoders.push(("e5".to_string(), enc(None, goto("ghost"), None, None)));
    let mut d = Deck::new(p).unwrap();
    assert!(d.handle_input(Event::EncoderTurn { index: 5, clockwise: true }).is_none());
    let target = d.take_pending().unwrap();
    assert_eq!(target, "ghost");
    assert!(!d.load_page(&target));
    assert_eq!(d.current_page_name(), "main");
}

#[test]
fn subscription_lists_each_resolved_id_once() {
    assert_eq!(subscription(&vec![Some(4), None, Some(9), Some(4), Some(1), None, Some(9)]), vec![4, 9, 1]);
    assert!(subscription(&vec![None, None]).is_empty());
}

#[test]
fn repeated_turns_repeat_the_action() {
    let mut d = Deck::new(profile()).unwrap();
    for _ in 0..3 {
        let e = d.handle_input(Event::EncoderTurn { index: 0, clockwise: true });
        assert_eq!(effect(e), Some(("page/up".to_string(), None)));
    }
}

#[test]
fn turns_of_any_index_are_looked_up_by_id() {
    let mut p = profile();
    p.encoders.push(("e9".to_string(), enc(None, cmd("nine/up"), cmd("nine/down"), None)));
    let mut d = Deck::new(p).unwrap();
    assert_eq!(
        effect(d.handle_input(Event::EncoderTurn { index: 9, clockwise: false })),
        Some(("nine/down".to_string(), None))
    );
    assert_eq!(effect(d.handle_input(Event::EncoderTurn { index: 200, clockwise: true })), None);
    assert!(rustdecks::deck::accepts_event(Event::EncoderTurn { index: 200, clockwise: true }));
    assert!(!rustdecks::deck::accepts_event(Event::EncoderPress { index: 6, pressed: true }));
    assert!(!rustdecks::deck::accepts_event(Event::Key { index: 12, pressed: true }));
    assert!(!rustdecks::deck::accepts_event(Event::Button { index: 8, pressed: true }));
}

#[test]
fn any_key_index_is_tracked_for_redraws() {
    let mut d = Deck::new(profile()).unwrap();
    let t = "X".to_string();
    assert!(d.needs_redraw(Surface::Key(200), &t));
    d.mark_drawn(Surface::Key(200), t.clone());
    assert!(!d.needs_redraw(Surface::Key(200), &t));
    assert!(d.needs_redraw(Surface::Key(201), &t));
}
