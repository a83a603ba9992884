use rustdecks::device::{
    button_event, decode_event, decode_touch, handshake_done, knob_index, led_key,
    parse_frames, ws_frame, DeviceError, Event, LoupedeckLive, PortInfo, Reader,
};

#[test]
fn short_frame_layout() {
    let f = ws_frame(&[0x04, 0x09, 0x01, 0x05]);
    assert_eq!(&f[..6], &[0x82, 0x84, 0, 0, 0, 0]); // 0x80 | len(4)
    assert_eq!(&f[6..], &[0x04, 0x09, 0x01, 0x05]);
}

#[test]
fn long_frame_layout() {
    let payload = vec![0xAB; 200];
    let f = ws_frame(&payload);
    assert_eq!(&f[..2], &[0x82, 0xFF]);
    assert_eq!(&f[6..10], &200u32.to_be_bytes()); // length at bytes 6..10
    assert_eq!(f.len(), 14 + 200);
}

#[test]
fn parse_one_and_partial() {
    // noise, one full frame (len 5: header 0x0500, txn 1, id 0x08, down), then a partial
    let mut buf = vec![0xAA, 0x82, 0x05, 0x05, 0x00, 0x01, 0x08, 0x00, 0x82, 0x02];
    let msgs = parse_frames(&mut buf);
    assert_eq!(msgs, vec![vec![0x05, 0x00, 0x01, 0x08, 0x00]]);
    assert_eq!(buf, vec![0x82, 0x02]); // partial frame retained
}

#[test]
fn decode_button_knob_touch() {
    // round button "1" (0x08) down -> b1
    assert_eq!(
        decode_event(&[0x05, 0x00, 0x01, 0x08, 0x00]),
        Some(Event::Button { index: 1, pressed: true })
    );
    // circle (0x07) up -> b0 release
    assert_eq!(
        decode_event(&[0x05, 0x00, 0x01, 0x07, 0x01]),
        Some(Event::Button { index: 0, pressed: false })
    );
    // knob push 0x01 -> e0
    assert_eq!(
        decode_event(&[0x05, 0x00, 0x01, 0x01, 0x00]),
        Some(Event::EncoderPress { index: 0, pressed: true })
    );
    // knob rotate 0x04 clockwise -> e3 CW
    assert_eq!(
        decode_event(&[0x05, 0x01, 0x01, 0x04, 0x01]),
        Some(Event::EncoderTurn { index: 3, clockwise: true })
    );
    // touch at x=150 (col 1), y=95 (row 1) -> key 5
    let touch = [0x00, 0x00, 150, 0x00, 95, 0x01];
    assert_eq!(
        decode_event(&[&[0x09, 0x4D, 0x01][..], &touch].concat()),
        Some(Event::Key { index: 5, pressed: true })
    );
}

#[test]
fn led_and_knob_mapping() {
    assert_eq!(led_key(0), Some(0x07));
    assert_eq!(led_key(7), Some(0x0E));
    assert_eq!(led_key(8), None);
    assert_eq!(knob_index(0x06), Some(5));
    assert_eq!(knob_index(0x07), None);
}

#[test]
fn frame_length_byte_boundaries() {
    let empty = ws_frame(&[]);
    assert_eq!(empty, vec![0x82, 0x80, 0, 0, 0, 0]);
    let p = vec![7u8; 0x7F];
    let f = ws_frame(&p);
    assert_eq!(f[1], 0xFF);
    assert_eq!(f.len(), 6 + 0x7F);
    let p = vec![7u8; 0x81];
    let f = ws_frame(&p);
    assert_eq!(&f[..10], &[0x82, 0xFF, 0, 0, 0, 0, 0, 0, 0, 0x81]);
    assert_eq!(&f[10..14], &[0, 0, 0, 0]);
    assert_eq!(f.len(), 14 + 0x81);
}

#[test]
fn parse_frames_drops_noise_and_keeps_partial_start() {
    let mut noise = vec![1, 2, 3];
    assert!(parse_frames(&mut noise).is_empty());
    assert!(noise.is_empty());

    let mut lone_start = vec![9, 9, 0x82];
    assert!(parse_frames(&mut lone_start).is_empty());
    assert_eq!(lone_start, vec![0x82]);

    let mut two = vec![0x82, 0x01, 0xAA, 0x82, 0x00, 0x82, 0x03, 0x01];
    let msgs = parse_frames(&mut two);
    assert_eq!(msgs, vec![vec![0xAA], vec![]]);
    assert_eq!(two, vec![0x82, 0x03, 0x01]);
}

#[test]
fn reader_splits_reads_anywhere() {
    // The same bytes fed whole or in arbitrary chunks give the same events.
    let bytes = [
        0xAA, 0x82, 0x05, 0x05, 0x00, 0x01, 0x08, 0x00, 0x82, 0x05, 0x05, 0x01, 0x02, 0x03, 0x00,
        0x82, 0x09, 0x09, 0x6D, 0x03, 0x00, 0x00, 0x64, 0x00, 0x0A, 0x02,
    ];
    let mut whole = Reader::new();
    let all = whole.feed(&bytes);
    assert_eq!(
        all,
        vec![
            Event::Button { index: 1, pressed: true },
            Event::EncoderTurn { index: 2, clockwise: false },
            Event::Key { index: 0, pressed: false },
        ]
    );
    for cut in 0..bytes.len() {
        let mut r = Reader::new();
        let mut got = r.feed(&bytes[..cut]);
        got.extend(r.feed(&bytes[cut..]));
        assert_eq!(got, all, "cut at {cut}");
    }
}

#[test]
fn button_and_touch_edges() {
    assert_eq!(button_event(0x00, true), None);
    assert_eq!(button_event(0x06, false), Some(Event::EncoderPress { index: 5, pressed: false }));
    assert_eq!(button_event(0x0E, true), Some(Event::Button { index: 7, pressed: true }));
    assert_eq!(button_event(0x0F, true), None);
    // x just inside the centre area; bottom-right key
    assert_eq!(decode_touch(&[0, 0x01, 0xA3, 0x01, 0x0D, 0], false), Some(Event::Key { index: 11, pressed: true }));
    // left strip and right strip touches are ignored
    assert_eq!(decode_touch(&[0, 0, 59, 0, 10, 0], false), None);
    assert_eq!(decode_touch(&[0, 0x01, 0xA4, 0, 10, 0], false), None);
    // below the grid
    assert_eq!(decode_touch(&[0, 0, 100, 0x01, 0x0E, 0], false), None);
    // too short
    assert_eq!(decode_touch(&[0, 0, 100, 0, 10], true), None);
    // far below the grid, where the row would wrap around a byte
    assert_eq!(decode_touch(&[0, 0, 60, 0x5A, 0x00, 0], false), None);
    assert_eq!(decode_touch(&[0, 0, 60, 0x01, 0x0D, 0], false), Some(Event::Key { index: 8, pressed: true }));
    assert_eq!(decode_event(&[0x05, 0x00]), None);
    assert_eq!(decode_event(&[0x05, 0x00, 0x01, 0x08]), None);
    assert_eq!(decode_event(&[0x12, 0x34, 0x01, 0x08, 0x00]), None);
}

#[test]
fn led_key_inverts_button_event() {
    for i in 0..8u8 {
        let id = led_key(i).unwrap();
        assert_eq!(button_event(id, true), Some(Event::Button { index: i, pressed: true }));
    }
}

#[test]
fn commands_count_transactions_and_skip_zero() {
    let mut d = LoupedeckLive::new();
    let f = d.set_brightness(7);
    assert_eq!(f, vec![0x82, 0x84, 0, 0, 0, 0, 0x04, 0x09, 0x01, 0x07]);
    let f = d.set_button_color(3, [1, 2, 3]).unwrap();
    assert_eq!(f, vec![0x82, 0x87, 0, 0, 0, 0, 0x07, 0x02, 0x02, 0x0A, 1, 2, 3]);
    assert_eq!(d.set_button_color(8, [1, 2, 3]), Err(DeviceError::LedIndex));
    for _ in 0..252 {
        d.refresh();
    }
    let f = d.refresh();
    assert_eq!(f[8], 255);
    let f = d.refresh();
    assert_eq!(f, vec![0x82, 0x85, 0, 0, 0, 0, 0x05, 0x0F, 0x01, 0x00, 0x4D]);
}

#[test]
fn framebuffer_size_is_checked() {
    let mut d = LoupedeckLive::new();
    assert_eq!(
        d.draw_key(0, &[0u8; 10]),
        Err(DeviceError::FramebufferSize { got: 10, expected: 90 * 90 * 2 })
    );
    let key = vec![0u8; 90 * 90 * 2];
    let (write, show) = d.draw_key(5, &key).unwrap();
    // the write: x = 1*90+60 = 150, y = 90, under transaction 1
    assert_eq!(&write[..2], &[0x82, 0xFF]);
    assert_eq!(&write[14..17], &[0xFF, 0x10, 0x01]);
    assert_eq!(&write[17..27], &[0x00, 0x4D, 0x00, 150, 0x00, 90, 0x00, 90, 0x00, 90]);
    assert_eq!(write.len(), 14 + 3 + 10 + 90 * 90 * 2);
    // then the refresh, under transaction 2
    assert_eq!(show, vec![0x82, 0x85, 0, 0, 0, 0, 0x05, 0x0F, 0x02, 0x00, 0x4D]);
    let strip = vec![0u8; 60 * 270 * 2];
    let (write, _) = d.draw_right(&strip).unwrap();
    assert_eq!(&write[17..27], &[0x00, 0x4D, 0x01, 0xA4, 0x00, 0x00, 0x00, 60, 0x01, 0x0E]);
    assert!(d.draw_left(&strip).is_ok());
    assert_eq!(
        d.draw_left(&key),
        Err(DeviceError::FramebufferSize { got: 90 * 90 * 2, expected: 60 * 270 * 2 })
    );
}

#[test]
fn handshake_reply_is_found() {
    assert!(handshake_done(b"HTTP/1.1 101 Switching Protocols\r\n"));
    assert!(!handshake_done(b"HTTP/1.1 101 Switching Protocol"));
    assert!(!handshake_done(b""));
}

#[test]
fn first_loupedeck_port_wins() {
    let ports = vec![
        PortInfo { name: "/dev/ttyS0".to_string(), usb_vid: None },
        PortInfo { name: "/dev/ttyACM0".to_string(), usb_vid: Some(0x1234) },
        PortInfo { name: "/dev/ttyACM1".to_string(), usb_vid: Some(0x2EC2) },
        PortInfo { name: "/dev/ttyACM2".to_string(), usb_vid: Some(0x2EC2) },
    ];
    assert_eq!(LoupedeckLive::find_port(&ports), Some("/dev/ttyACM1".to_string()));
    assert_eq!(LoupedeckLive::find_port(&ports[..2]), None);
}

#[test]
fn framed_messages_parse_back_whole() {
    let msgs: Vec<Vec<u8>> = vec![vec![0x05, 0x00, 0x01, 0x08, 0x00], vec![], vec![0x42; 255]];
    let mut buf = Vec::new();
    for m in &msgs {
        buf.push(0x82);
        buf.push(m.len() as u8);
        buf.extend_from_slice(m);
    }
    let before = buf.clone();
    assert_eq!(parse_frames(&mut buf), msgs);
    assert!(buf.is_empty());
    assert!(before.ends_with(&buf));
}
