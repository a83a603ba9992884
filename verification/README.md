# rustdecks

A lean Loupedeck Live controller for X-Plane 12. The library (`src/`) is
written in Verus: its functions carry contracts that Verus proves, except a
few small wrappers around outside code (`String::push`, `char::from_u32`,
ratatui's `Layout::split`, and serde_json's parser with the conversion of
its result), whose contracts are believed, not proved; each one's doc
comment says what it claims. The application (`app/`) is ordinary Rust that
does the I/O around it.

## Layout

- `src/device.rs` — the Loupedeck serial wire protocol: WebSocket-style
  framing, scanning a byte stream for frames (also across split reads),
  decoding input events, and the command frames for brightness, LED colours
  and framebuffer writes with their transaction ids.
- `src/render.rs` — an RGB888 canvas (fills, frame, accent bar, alpha
  blending of glyph coverage) packed to RGB565 little-endian; colour names and
  `#rgb`/`#rrggbb`; icon names and codepoints.
- `src/config.rs` — the profile schema and its validation, with the message
  of each rejection.
- `src/sim.rs` — the X-Plane side: the discovery beacon, `name[i]`
  references, REST and WebSocket replies, addresses and requests.
- `src/deck.rs` — the deck controller: press edges, actions of the current
  page with inherited encoders/LEDs (the page wins per id), pending page
  switches, id caches, live values, and change tracking for redraws.
- `src/format.rs` — value formats such as `"{:.0} ft"`.
- `src/tui.rs`, `src/mirror.rs` — the terminal mirror's input map, layout
  and display helpers, and the snapshot it shows.
- `src/text.rs` — character and integer-syntax helpers.
- `app/` — serial port, network, YAML, font rasterising (`fontdue`) and the
  terminal (`ratatui`), plus `main`.

Floating-point values of the profile and of X-Plane (brightness, scale,
offset, dataref values) are carried by the library as their IEEE-754 bit
patterns; only the application computes with them.

The renderer reads its fonts from `assets/fonts/` at run time:
`B612-Regular.ttf`, `B612Mono-Regular.ttf`, `FontAwesome6-Solid.otf` and
`Segment7Standard.otf`.
