use rustdecks::config::{
    check_ids, default_brightness, default_host, default_port, Action, ConfigError, Device, Draw,
    Encoder, IdKind, Key, Led, Page, Profile, Sim,
};

fn draw(text: &str) -> Draw {
    Draw {
        text: Some(text.to_string()),
        value: None,
        format: None,
        scale: None,
        offset: None,
        text_color: None,
        bg_color: None,
        icon: None,
        lit_color: None,
    }
}

fn empty_page() -> Page {
    Page { keys: vec![], encoders: vec![], leds: vec![] }
}

fn profile(home: &str, pages: Vec<(String, Page)>) -> Profile {
    Profile {
        device: Device::LoupedeckLive,
        brightness: default_brightness(),
        sim: Sim::default(),
        home: home.to_string(),
        pages,
        encoders: vec![],
        leds: vec![],
    }
}

fn command(c: &str) -> Option<Action> {
    Some(Action::Command { command: c.to_string() })
}

fn goto(p: &str) -> Option<Action> {
    Some(Action::Page { page: p.to_string() })
}

/// The sample profile: pages `main` and `radio`, in key order.
fn sample() -> Profile {
    let mut gen = draw("GEN");
    gen.value = Some("sim/cockpit2/electrical/generator_on[0]".to_string());
    gen.format = Some("{:.0}".to_string());
    let mut thr = draw("THR");
    thr.value = Some("sim/flightmodel/engine/ENGN_thro[0]".to_string());
    thr.scale = Some(100.0f64.to_bits());
    thr.format = Some("{:.0}%".to_string());
    let main = Page {
        keys: vec![
            (
                0,
                Key {
                    draw: Some(gen),
                    press: command("sim/electrical/generator_1_toggle"),
                    long_press: None,
                },
            ),
            (1, Key { draw: Some(draw("RADIO")), press: goto("radio"), long_press: None }),
        ],
        encoders: vec![(
            "e0".to_string(),
            Encoder {
                draw: Some(thr),
                turn_cw: command("sim/engines/throttle_up"),
                turn_ccw: command("sim/engines/throttle_down"),
                press: None,
            },
        )],
        leds: vec![("b0".to_string(), Led { color: Some("#00ff00".to_string()), press: None })],
    };
    let radio = Page {
        keys: vec![(0, Key { draw: Some(draw("BACK")), press: goto("main"), long_press: None })],
        encoders: vec![],
        leds: vec![],
    };
    profile("main", vec![("main".to_string(), main), ("radio".to_string(), radio)])
}

#[test]
fn parses_and_validates_sample() {
    let p = sample();
    assert!(p.validate().is_ok(), "should parse");
    assert_eq!(p.device, Device::LoupedeckLive);
    assert_eq!(f32::from_bits(p.brightness), 0.7);
    assert_eq!(p.sim.port, 8086);
    assert_eq!(p.pages.len(), 2);
}

#[test]
fn rejects_undefined_home() {
    // home: nope / pages: main: {}
    let p = profile("nope", vec![("main".to_string(), empty_page())]);
    let err = p.validate().unwrap_err().message();
    assert!(err.contains("home page"), "{err}");
}

#[test]
fn rejects_out_of_range_key() {
    // key 12 on page main
    let mut main = empty_page();
    main.keys.push((12, Key { draw: Some(draw("x")), press: None, long_press: None }));
    let p = profile("main", vec![("main".to_string(), main)]);
    let err = p.validate().unwrap_err().message();
    assert!(err.contains("out of range"), "{err}");
}

#[test]
fn rejects_bad_encoder_id() {
    // encoder e9 on page main
    let mut main = empty_page();
    main.encoders.push((
        "e9".to_string(),
        Encoder { draw: None, turn_cw: None, turn_ccw: None, press: None },
    ));
    let p = profile("main", vec![("main".to_string(), main)]);
    let err = p.validate().unwrap_err().message();
    assert!(err.contains("invalid encoder id"), "{err}");
}

#[test]
fn rejects_page_action_to_missing_page() {
    // key 0 presses to page ghost
    let mut main = empty_page();
    main.keys.push((0, Key { draw: None, press: goto("ghost"), long_press: None }));
    let p = profile("main", vec![("main".to_string(), main)]);
    let err = p.validate().unwrap_err().message();
    assert!(err.contains("undefined page"), "{err}");
}

#[test]
fn defaults() {
    assert_eq!(default_brightness(), 0.7f32.to_bits());
    assert_eq!(default_host(), "auto");
    assert_eq!(default_port(), 8086);
    let s = Sim::default();
    assert_eq!((s.host.as_str(), s.port), ("auto", 8086));
}

#[test]
fn every_error_and_its_message() {
    let mut p = sample();
    p.brightness = 1.5f32.to_bits();
    let e = p.validate().unwrap_err();
    assert!(matches!(e, ConfigError::Brightness(b) if b == 1.5f32.to_bits()));
    assert_eq!(e.message(), "brightness must be 0.0..=1.0");
    p.brightness = f32::NAN.to_bits();
    assert!(matches!(p.validate(), Err(ConfigError::Brightness(_))));
    p.brightness = (-0.0f32).to_bits();
    assert!(p.validate().is_ok());
    p.brightness = 1.0f32.to_bits();
    assert!(p.validate().is_ok());
    p.brightness = (-0.1f32).to_bits();
    assert!(p.validate().is_err());

    let p = profile("nope", vec![("main".to_string(), empty_page())]);
    assert_eq!(p.validate().unwrap_err().message(), "home page `nope` is not defined");

    let mut main = empty_page();
    main.keys.push((11, Key { draw: None, press: None, long_press: None }));
    main.keys.push((200, Key { draw: None, press: None, long_press: None }));
    let p = profile("main", vec![("main".to_string(), main)]);
    assert_eq!(p.validate().unwrap_err().message(), "page `main`: key 200 out of range (0..=11)");

    let mut main = empty_page();
    main.leds.push(("b8".to_string(), Led { color: None, press: None }));
    let p = profile("main", vec![("main".to_string(), main)]);
    let e = p.validate().unwrap_err();
    assert!(matches!(&e, ConfigError::InvalidId { kind: IdKind::Led, max: 7, prefix: 'b', .. }));
    assert_eq!(e.message(), "page `main`: invalid led id `b8` (expected b0..=b7)");

    let mut main = empty_page();
    main.encoders.push((
        "e1".to_string(),
        Encoder { draw: None, turn_cw: None, turn_ccw: goto("gone"), press: None },
    ));
    let p = profile("main", vec![("main".to_string(), main)]);
    assert_eq!(
        p.validate().unwrap_err().message(),
        "page `main`: action targets undefined page `gone`"
    );
}

#[test]
fn first_problem_wins() {
    // keys are checked before encoders, and page `a` before page `b`
    let mut a = empty_page();
    a.encoders.push(("x".to_string(), Encoder { draw: None, turn_cw: None, turn_ccw: None, press: None }));
    a.keys.push((12, Key { draw: None, press: None, long_press: None }));
    let mut b = empty_page();
    b.keys.push((13, Key { draw: None, press: None, long_press: None }));
    let p = profile("a", vec![("a".to_string(), a), ("b".to_string(), b)]);
    assert!(matches!(p.validate(), Err(ConfigError::KeyOutOfRange { index: 12, .. })));
}

#[test]
fn id_syntax() {
    let ids: Vec<(String, ())> = ["e0", "e3", "e5"].iter().map(|s| (s.to_string(), ())).collect();
    assert!(check_ids(&"p".to_string(), IdKind::Encoder, &ids, 'e', 5).is_ok());
    for bad in ["e6", "e", "b1", "e-1", "e256", " e1", "E1", "e+3", "e05", "e00", "e1 "] {
        let ids = vec![(bad.to_string(), ())];
        match check_ids(&"p".to_string(), IdKind::Encoder, &ids, 'e', 5) {
            Err(ConfigError::InvalidId { id, .. }) => assert_eq!(id, bad),
            other => panic!("{bad}: {other:?}"),
        }
    }
}

#[test]
fn only_canonical_ids_are_accepted() {
    let mut main = empty_page();
    main.encoders.push(("e05".to_string(), Encoder { draw: None, turn_cw: None, turn_ccw: None, press: None }));
    let p = profile("main", vec![("main".to_string(), main)]);
    assert_eq!(p.validate().unwrap_err().message(), "page `main`: invalid encoder id `e05` (expected e0..=e5)");
    let mut main = empty_page();
    main.leds.push(("b+3".to_string(), Led { color: None, press: None }));
    let p = profile("main", vec![("main".to_string(), main)]);
    assert!(p.validate().is_err());
}
