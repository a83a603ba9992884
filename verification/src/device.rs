//! Loupedeck Live serial protocol.
//!
//! The device speaks a WebSocket-like binary protocol over a USB CDC serial
//! port: after an HTTP upgrade handshake, the host sends masked binary frames
//! (the mask key is always zero) and the device answers with short frames
//! `0x82, len, body`. Multi-byte fields are big-endian.
//!
//! Screen geometry: one 480x270 framebuffer addressed by x offset: left strip
//! 0..60, centre 60..420 (a 4x3 grid of 90x90 keys), right strip 420..480.

use vstd::prelude::*;

verus! {

/// Side of a square screen key, in pixels.
pub const KEY_SIZE: u16 = 90;
/// Width of a side strip, in pixels.
pub const SIDE_W: u16 = 60;
/// Height of a side strip (and of the screen), in pixels.
pub const SIDE_H: u16 = 270;
/// X offset of the centre key grid.
pub const CENTER_OFFSET: u16 = 60;
/// X offset of the right side strip.
pub const RIGHT_OFFSET: u16 = 420;
/// USB vendor id of Loupedeck devices.
pub const LOUPEDECK_VID: u16 = 0x2EC2;

/// Outbound action header: set screen/LED brightness.
pub const SET_BRIGHTNESS: u16 = 0x0409;
/// Outbound action header: set a round button's LED colour.
pub const SET_COLOR: u16 = 0x0702;
/// Outbound action header: write pixels into the framebuffer.
pub const WRITE_FRAMEBUFF: u16 = 0xFF10;
/// Outbound action header: push the framebuffer to the screen.
pub const DRAW: u16 = 0x050F;

/// Inbound message header: a button or knob was pushed or released.
pub const BUTTON_PRESS: u16 = 0x0500;
/// Inbound message header: a knob was rotated.
pub const KNOB_ROTATE: u16 = 0x0501;
/// Inbound message header: the screen was touched.
pub const TOUCH: u16 = 0x094D;
/// Inbound message header: a touch ended.
pub const TOUCH_END: u16 = 0x096D;

/// First byte of every frame, in both directions (binary WebSocket frame).
pub const FRAME_START: u8 = 0x82;

/// An input event from the device, in profile vocabulary.
#[derive(Debug, Clone, Copy, PartialEq, Eq, Structural)]
pub enum Event {
    /// Screen key 0..=11 touched or released.
    Key { index: u8, pressed: bool },
    /// Encoder e0..=e5 rotated.
    EncoderTurn { index: u8, clockwise: bool },
    /// Encoder e0..=e5 pushed or released.
    EncoderPress { index: u8, pressed: bool },
    /// Round RGB button b0..=b7 pushed or released.
    Button { index: u8, pressed: bool },
}

// ---------------------------------------------------------------------------
// Byte-level helpers
// ---------------------------------------------------------------------------

/// Big-endian bytes of a 16-bit value.
pub open spec fn be16(v: u16) -> Seq<u8> {
    seq![(v / 256) as u8, (v % 256) as u8]
}

/// Big-endian bytes of a 32-bit value.
pub open spec fn be32(v: u32) -> Seq<u8> {
    seq![
        (v / 0x100_0000) as u8,
        ((v / 0x1_0000) % 256) as u8,
        ((v / 256) % 256) as u8,
        (v % 256) as u8,
    ]
}

/// The 16-bit value of two big-endian bytes.
pub open spec fn from_be16(hi: u8, lo: u8) -> int {
    hi * 256 + lo
}

fn push_be16(out: &mut Vec<u8>, v: u16)
    ensures
        final(out)@ == old(out)@ + be16(v),
{
    out.push((v / 256) as u8);
    out.push((v % 256) as u8);
    assert(final(out)@ =~= old(out)@ + be16(v));
}

fn push_be32(out: &mut Vec<u8>, v: u32)
    ensures
        final(out)@ == old(out)@ + be32(v),
{
    out.push((v / 0x100_0000) as u8);
    out.push(((v / 0x1_0000) % 256) as u8);
    out.push(((v / 256) % 256) as u8);
    out.push((v % 256) as u8);
    assert(final(out)@ =~= old(out)@ + be32(v));
}

/// Append every byte of `data` to `out`.
fn push_all(out: &mut Vec<u8>, data: &[u8])
    ensures
        final(out)@ == old(out)@ + data@,
{
    let mut i: usize = 0;
    while i < data.len()
        invariant
            i <= data@.len(),
            out@ == old(out)@ + data@.subrange(0, i as int),
        decreases data@.len() - i,
    {
        out.push(data[i]);
        assert(data@.subrange(0, i + 1) =~= data@.subrange(0, i as int).push(data@[i as int]));
        i = i + 1;
    }
    assert(data@.subrange(0, data@.len() as int) =~= data@);
}

/// A copy of `v[from..to]`.
fn copy_range(v: &Vec<u8>, from: usize, to: usize) -> (r: Vec<u8>)
    requires
        from <= to <= v@.len(),
    ensures
        r@ == v@.subrange(from as int, to as int),
{
    let mut r: Vec<u8> = Vec::new();
    let mut i: usize = from;
    while i < to
        invariant
            from <= i <= to <= v@.len(),
            r@ == v@.subrange(from as int, i as int),
        decreases to - i,
    {
        r.push(v[i]);
        assert(v@.subrange(from as int, i + 1) =~= v@.subrange(from as int, i as int).push(
            v@[i as int],
        ));
        i = i + 1;
    }
    r
}

// ---------------------------------------------------------------------------
// Outbound framing
// ---------------------------------------------------------------------------

/// The zero-masked binary WebSocket frame that carries `p`: a short header
/// (`0x82, 0x80 + len`) for payloads of at most 0x80 bytes, otherwise the
/// long header `0x82, 0xFF, 0, 0, 0, 0` followed by the length as a
/// big-endian u32; then the four-byte zero mask key and the payload.
pub open spec fn spec_ws_frame(p: Seq<u8>) -> Seq<u8> {
    if p.len() > 0x80 {
        seq![FRAME_START, 0xFFu8, 0u8, 0u8, 0u8, 0u8] + be32((p.len() % 0x1_0000_0000) as u32)
            + seq![0u8, 0u8, 0u8, 0u8] + p
    } else {
        seq![FRAME_START, (0x80 + p.len()) as u8, 0u8, 0u8, 0u8, 0u8] + p
    }
}

/// Wrap a payload in a zero-masked WebSocket binary frame.
///
/// A payload of exactly 0x80 bytes overflows the one-byte length field
/// (`0x80 + 0x80`), so it is not accepted.
pub fn ws_frame(payload: &[u8]) -> (out: Vec<u8>)
    requires
        payload@.len() != 0x80,
    ensures
        out@ == spec_ws_frame(payload@),
{
    let len = payload.len();
    let mut out: Vec<u8> = Vec::new();
    if len > 0x80 {
        out.push(FRAME_START);
        out.push(0xFF);
        out.push(0);
        out.push(0);
        out.push(0);
        out.push(0);
        let len32 = (len as u64 % 0x1_0000_0000) as u32;
        push_be32(&mut out, len32);
        out.push(0);
        out.push(0);
        out.push(0);
        out.push(0);
        push_all(&mut out, payload);
        assert(out@ =~= spec_ws_frame(payload@));
    } else {
        out.push(FRAME_START);
        out.push(0x80 + len as u8);
        out.push(0);
        out.push(0);
        out.push(0);
        out.push(0);
        push_all(&mut out, payload);
        assert(out@ =~= spec_ws_frame(payload@));
    }
    out
}


// ---------------------------------------------------------------------------
// Inbound frame scanning
// ---------------------------------------------------------------------------

/// The first index `i >= start` with `b[i] == x`, if any.
pub open spec fn find_from(b: Seq<u8>, x: u8, start: int) -> Option<int>
    decreases b.len() - start,
{
    if start < 0 || start >= b.len() {
        None
    } else if b[start] == x {
        Some(start)
    } else {
        find_from(b, x, start + 1)
    }
}

/// What `find_from` returns, characterised.
pub proof fn lemma_find_from(b: Seq<u8>, x: u8, start: int)
    requires
        0 <= start,
    ensures
        find_from(b, x, start) matches Some(p) ==> {
            &&& start <= p < b.len()
            &&& b[p] == x
            &&& forall|k: int| start <= k < p ==> b[k] != x
        },
        find_from(b, x, start) is None ==> forall|k: int| start <= k < b.len() ==> b[k] != x,
    decreases b.len() - start,
{
    if start < b.len() && b[start] != x {
        lemma_find_from(b, x, start + 1);
    }
}

/// `find_from` is determined by where the first match lies.
pub proof fn lemma_find_from_unique(b: Seq<u8>, x: u8, start: int, r: Option<int>)
    requires
        0 <= start,
        r matches Some(p) ==> {
            &&& start <= p < b.len()
            &&& b[p] == x
            &&& forall|k: int| start <= k < p ==> b[k] != x
        },
        r is None ==> forall|k: int| start <= k < b.len() ==> b[k] != x,
    ensures
        find_from(b, x, start) == r,
    decreases b.len() - start,
{
    if start < b.len() && b[start] != x {
        lemma_find_from_unique(b, x, start + 1, r);
    }
}

/// Scan `b` from `start` for complete inbound frames `0x82, len, <len bytes>`.
/// Bytes before a frame start are noise and are dropped. Returns the frame
/// bodies in order and what is left to keep: the bytes from an incomplete
/// frame's start on, or nothing when no frame start remains.
pub open spec fn frames_from(b: Seq<u8>, start: int) -> (Seq<Seq<u8>>, Seq<u8>)
    decreases b.len() - start,
{
    if start < 0 {
        (Seq::empty(), Seq::empty())
    } else {
        match find_from(b, FRAME_START, start) {
            None => (Seq::empty(), Seq::empty()),
            Some(pos) => {
                if b.len() < pos + 2 {
                    (Seq::empty(), b.subrange(pos, b.len() as int))
                } else {
                    let end = pos + 2 + b[pos + 1];
                    if b.len() < end {
                        (Seq::empty(), b.subrange(pos, b.len() as int))
                    } else {
                        proof {
                            lemma_find_from(b, FRAME_START, start);
                        }
                        let rest = frames_from(b, end);
                        (seq![b.subrange(pos + 2, end)] + rest.0, rest.1)
                    }
                }
            },
        }
    }
}

/// The frame bodies found in `b` and the bytes kept for the next read.
pub open spec fn spec_parse_frames(b: Seq<u8>) -> (Seq<Seq<u8>>, Seq<u8>) {
    frames_from(b, 0)
}

/// The byte views of a list of buffers.
pub open spec fn views(v: Seq<Vec<u8>>) -> Seq<Seq<u8>> {
    v.map_values(|x: Vec<u8>| x@)
}

/// Scanning only depends on where the next frame start lies.
proof fn lemma_frames_from_same_find(b: Seq<u8>, s1: int, s2: int)
    requires
        0 <= s1,
        0 <= s2,
        find_from(b, FRAME_START, s1) == find_from(b, FRAME_START, s2),
    ensures
        frames_from(b, s1) == frames_from(b, s2),
{
}

/// Scanning `p + q` from inside `q` is scanning `q`.
proof fn lemma_frames_from_shift(p: Seq<u8>, q: Seq<u8>, j: int)
    requires
        0 <= j,
    ensures
        frames_from(p + q, p.len() + j) == frames_from(q, j),
    decreases q.len() - j,
{
    let b = p + q;
    let s = p.len() + j;
    lemma_find_from(q, FRAME_START, j);
    let r = match find_from(q, FRAME_START, j) {
        None => None,
        Some(k) => Some(k + p.len()),
    };
    assert forall|k: int| s <= k < b.len() implies b[k] == q[k - p.len()] by {}
    lemma_find_from_unique(b, FRAME_START, s, r);
    match find_from(q, FRAME_START, j) {
        None => {},
        Some(k) => {
            let pos = k + p.len();
            if q.len() < k + 2 {
                assert(b.subrange(pos, b.len() as int) =~= q.subrange(k, q.len() as int));
            } else {
                assert(b[pos + 1] == q[k + 1]);
                let end = k + 2 + q[k + 1];
                if q.len() < end {
                    assert(b.subrange(pos, b.len() as int) =~= q.subrange(k, q.len() as int));
                } else {
                    assert(b.subrange(pos + 2, pos + 2 + b[pos + 1]) =~= q.subrange(k + 2, end));
                    lemma_frames_from_shift(p, q, end);
                }
            }
        },
    }
}

/// Scanning `a + c` from `start` finds what scanning `a` finds, then what
/// scanning the kept bytes of `a` followed by `c` finds.
proof fn lemma_frames_from_concat(a: Seq<u8>, c: Seq<u8>, start: int)
    requires
        0 <= start <= a.len(),
    ensures
        ({
            let (m1, r1) = frames_from(a, start);
            let (m2, r2) = frames_from(r1 + c, 0);
            frames_from(a + c, start) == (m1 + m2, r2)
        }),
    decreases a.len() - start,
{
    let b = a + c;
    lemma_find_from(a, FRAME_START, start);
    match find_from(a, FRAME_START, start) {
        None => {
            // No frame start left in `a`: everything up to its end is noise.
            lemma_find_from(c, FRAME_START, 0);
            let r = match find_from(c, FRAME_START, 0) {
                None => None,
                Some(k) => Some(k + a.len()),
            };
            assert forall|k: int| a.len() <= k < b.len() implies b[k] == c[k - a.len()] by {}
            lemma_find_from_unique(b, FRAME_START, start, r);
            lemma_find_from_unique(b, FRAME_START, a.len() as int, r);
            lemma_frames_from_same_find(b, start, a.len() as int);
            lemma_frames_from_shift(a, c, 0);
            assert(Seq::<u8>::empty() + c =~= c);
            assert(Seq::<Seq<u8>>::empty() + frames_from(c, 0).0 =~= frames_from(c, 0).0);
        },
        Some(pos) => {
            lemma_find_from_unique(b, FRAME_START, start, Some(pos));
            let r1 = a.subrange(pos, a.len() as int);
            let pre = a.subrange(0, pos);
            assert(b =~= pre + (r1 + c));
            lemma_frames_from_shift(pre, r1 + c, 0);
            lemma_find_from_unique(b, FRAME_START, pos, Some(pos));
            lemma_frames_from_same_find(b, start, pos);
            if a.len() < pos + 2 {
                assert(Seq::<Seq<u8>>::empty() + frames_from(r1 + c, 0).0 =~= frames_from(
                    r1 + c,
                    0,
                ).0);
            } else {
                let end = pos + 2 + a[pos + 1];
                if a.len() < end {
                    assert(Seq::<Seq<u8>>::empty() + frames_from(r1 + c, 0).0 =~= frames_from(
                        r1 + c,
                        0,
                    ).0);
                } else {
                    assert(b[pos + 1] == a[pos + 1]);
                    assert(b.subrange(pos + 2, end) =~= a.subrange(pos + 2, end));
                    lemma_frames_from_concat(a, c, end);
                    let (m, r) = frames_from(a, end);
                    let (m2, r2) = frames_from(r + c, 0);
                    assert(seq![a.subrange(pos + 2, end)] + (m + m2) =~= (seq![
                        a.subrange(pos + 2, end),
                    ] + m) + m2);
                }
            }
        },
    }
}

/// Reading in chunks decodes the same frames as reading everything at once:
/// scanning `a`, keeping its leftover bytes, and scanning them followed by
/// `c` yields the frames of scanning `a + c`, and the same leftover.
pub proof fn lemma_parse_frames_chunked(a: Seq<u8>, c: Seq<u8>)
    ensures
        ({
            let (m1, r1) = spec_parse_frames(a);
            let (m2, r2) = spec_parse_frames(r1 + c);
            spec_parse_frames(a + c) == (m1 + m2, r2)
        }),
{
    lemma_frames_from_concat(a, c, 0);
}

/// The leftover of a scan is either empty or an incomplete frame: it starts
/// with a frame start byte and is shorter than the frame it announces.
pub proof fn lemma_parse_frames_leftover(b: Seq<u8>, start: int)
    requires
        0 <= start,
    ensures
        ({
            let r = frames_from(b, start).1;
            r.len() == 0 || (r[0] == FRAME_START && (r.len() < 2 || r.len() < 2 + r[1]))
        }),
    decreases b.len() - start,
{
    lemma_find_from(b, FRAME_START, start);
    match find_from(b, FRAME_START, start) {
        None => {},
        Some(pos) => {
            if b.len() >= pos + 2 && b.len() >= pos + 2 + b[pos + 1] {
                lemma_parse_frames_leftover(b, pos + 2 + b[pos + 1]);
            }
        },
    }
}

/// Messages of at most 255 bytes, each framed as `0x82, len, <bytes>`,
/// one after another.
pub open spec fn framed_all(msgs: Seq<Seq<u8>>) -> Seq<u8>
    decreases msgs.len(),
{
    if msgs.len() == 0 {
        Seq::empty()
    } else {
        seq![FRAME_START, msgs[0].len() as u8] + msgs[0] + framed_all(msgs.drop_first())
    }
}

/// An inbound frame is the byte 0x82, the payload's length in one byte,
/// then the payload: scanning `0x82, len, m` gives `m` back and keeps
/// nothing.
pub proof fn lemma_inbound_frame(m: Seq<u8>)
    requires
        m.len() <= 255,
    ensures
        framed_all(seq![m]) == seq![0x82u8, m.len() as u8] + m,
        spec_parse_frames(seq![0x82u8, m.len() as u8] + m) == (seq![m], Seq::<u8>::empty()),
{
    let one = seq![m];
    assert(one.drop_first() =~= Seq::<Seq<u8>>::empty());
    assert(framed_all(one.drop_first()) == Seq::<u8>::empty());
    assert(framed_all(one) =~= seq![0x82u8, m.len() as u8] + m);
    assert forall|i: int| 0 <= i < one.len() implies (#[trigger] one[i]).len() <= 255 by {}
    lemma_parse_framed(one);
}

/// Framing messages and scanning the bytes gives the messages back, in
/// order, with nothing kept.
pub proof fn lemma_parse_framed(msgs: Seq<Seq<u8>>)
    requires
        forall|i: int| 0 <= i < msgs.len() ==> (#[trigger] msgs[i]).len() <= 255,
    ensures
        spec_parse_frames(framed_all(msgs)) == (msgs, Seq::<u8>::empty()),
    decreases msgs.len(),
{
    if msgs.len() > 0 {
        let m = msgs[0];
        let rest = msgs.drop_first();
        assert forall|i: int| 0 <= i < rest.len() implies (#[trigger] rest[i]).len() <= 255 by {
            assert(rest[i] == msgs[i + 1]);
        }
        lemma_parse_framed(rest);
        let head = seq![FRAME_START, m.len() as u8] + m;
        let b = framed_all(msgs);
        assert(b =~= head + framed_all(rest));
        lemma_find_from_unique(b, FRAME_START, 0, Some(0));
        assert(b[1] == m.len());
        assert(b.subrange(2, 2 + m.len() as int) =~= m);
        lemma_frames_from_shift(head, framed_all(rest), 0);
        assert(seq![m] + rest =~= msgs);
    }
}

/// How many bytes the frames of `msgs` take, headers included.
pub open spec fn framed_len(msgs: Seq<Seq<u8>>) -> int
    decreases msgs.len(),
{
    if msgs.len() == 0 {
        0
    } else {
        msgs[0].len() + 2 + framed_len(msgs.drop_first())
    }
}

/// What a scan keeps is the tail of what it was given, and the frames it
/// found, with their headers, fit in what went before.
pub proof fn lemma_parse_frames_keeps_tail(b: Seq<u8>)
    ensures
        ({
            let (msgs, kept) = spec_parse_frames(b);
            &&& kept.len() <= b.len()
            &&& kept == b.subrange(b.len() - kept.len(), b.len() as int)
            &&& framed_len(msgs) <= b.len() - kept.len()
        }),
{
    lemma_frames_from_tail(b, 0);
}

proof fn lemma_frames_from_tail(b: Seq<u8>, start: int)
    requires
        0 <= start <= b.len(),
    ensures
        ({
            let (msgs, kept) = frames_from(b, start);
            &&& kept.len() <= b.len() - start
            &&& kept == b.subrange(b.len() - kept.len(), b.len() as int)
            &&& framed_len(msgs) <= b.len() - start - kept.len()
        }),
    decreases b.len() - start,
{
    lemma_find_from(b, FRAME_START, start);
    match find_from(b, FRAME_START, start) {
        None => {
            assert(b.subrange(b.len() as int, b.len() as int) =~= Seq::<u8>::empty());
        },
        Some(pos) => {
            if b.len() < pos + 2 || b.len() < pos + 2 + b[pos + 1] {
            } else {
                let end = pos + 2 + b[pos + 1];
                lemma_frames_from_tail(b, end);
                let (m, k) = frames_from(b, end);
                let found = seq![b.subrange(pos + 2, end)] + m;
                assert(found.drop_first() =~= m);
                assert(found[0].len() == b[pos + 1]);
            }
        },
    }
}

fn find_byte(b: &Vec<u8>, x: u8, start: usize) -> (r: Option<usize>)
    ensures
        match r {
            None => find_from(b@, x, start as int) is None,
            Some(p) => find_from(b@, x, start as int) == Some(p as int),
        },
{
    let mut i = start;
    while i < b.len()
        invariant
            start <= i,
            forall|k: int| start <= k < i && k < b@.len() ==> b@[k] != x,
        decreases b@.len() - i,
    {
        if b[i] == x {
            proof {
                lemma_find_from_unique(b@, x, start as int, Some(i as int));
            }
            return Some(i);
        }
        i = i + 1;
    }
    proof {
        lemma_find_from_unique(b@, x, start as int, None);
    }
    None
}

/// Scan the buffer for complete inbound frames (`0x82, len, <len bytes>`),
/// returning the message bodies and consuming them from the buffer. Leading
/// noise is dropped; a trailing incomplete frame is kept for the next read.
pub fn parse_frames(buffer: &mut Vec<u8>) -> (msgs: Vec<Vec<u8>>)
    ensures
        views(msgs@) == spec_parse_frames(old(buffer)@).0,
        final(buffer)@ == spec_parse_frames(old(buffer)@).1,
{
    let ghost b = buffer@;
    let mut msgs: Vec<Vec<u8>> = Vec::new();
    let mut start: usize = 0;
    let n = buffer.len();
    loop
        invariant
            buffer@ == b,
            b == old(buffer)@,
            n == b.len(),
            start <= n,
            spec_parse_frames(b).0 == views(msgs@) + frames_from(b, start as int).0,
            spec_parse_frames(b).1 == frames_from(b, start as int).1,
        decreases n - start,
    {
        match find_byte(buffer, FRAME_START, start) {
            None => {
                proof {
                    assert(frames_from(b, start as int) == (
                        Seq::<Seq<u8>>::empty(),
                        Seq::<u8>::empty(),
                    ));
                    assert(views(msgs@) + Seq::<Seq<u8>>::empty() =~= views(msgs@));
                }
                *buffer = Vec::new();
                return msgs;
            },
            Some(pos) => {
                proof {
                    lemma_find_from(b, FRAME_START, start as int);
                }
                if n - pos < 2 {
                    let rest = copy_range(buffer, pos, n);
                    proof {
                        assert(frames_from(b, start as int) == (
                            Seq::<Seq<u8>>::empty(),
                            b.subrange(pos as int, n as int),
                        ));
                        assert(views(msgs@) + Seq::<Seq<u8>>::empty() =~= views(msgs@));
                    }
                    *buffer = rest;
                    return msgs;
                }
                let len = buffer[pos + 1] as usize;
                if n - pos - 2 < len {
                    let rest = copy_range(buffer, pos, n);
                    proof {
                        assert(frames_from(b, start as int) == (
                            Seq::<Seq<u8>>::empty(),
                            b.subrange(pos as int, n as int),
                        ));
                        assert(views(msgs@) + Seq::<Seq<u8>>::empty() =~= views(msgs@));
                    }
                    *buffer = rest;
                    return msgs;
                }
                let end = pos + 2 + len;
                let body = copy_range(buffer, pos + 2, end);
                let ghost old_msgs = msgs@;
                msgs.push(body);
                proof {
                    assert(views(msgs@) =~= views(old_msgs) + seq![b.subrange(pos + 2, end as int)]);
                    let rest = frames_from(b, end as int);
                    assert(views(old_msgs) + (seq![b.subrange(pos + 2, end as int)] + rest.0)
                        =~= views(msgs@) + rest.0);
                }
                start = end;
            },
        }
    }
}

// ---------------------------------------------------------------------------
// Inbound event decoding
// ---------------------------------------------------------------------------

/// A BUTTON_PRESS id: 0x01..=0x06 are knob pushes (e0..e5), 0x07 is the
/// circle button (b0), 0x08..=0x0E the numbered buttons (b1..b7).
pub open spec fn spec_button_event(id: u8, pressed: bool) -> Option<Event> {
    if 0x01 <= id <= 0x06 {
        Some(Event::EncoderPress { index: (id - 1) as u8, pressed })
    } else if id == 0x07 {
        Some(Event::Button { index: 0, pressed })
    } else if 0x08 <= id <= 0x0E {
        Some(Event::Button { index: (id - 7) as u8, pressed })
    } else {
        None
    }
}

/// Map a BUTTON_PRESS id to the event it reports.
pub fn button_event(id: u8, pressed: bool) -> (r: Option<Event>)
    ensures
        r == spec_button_event(id, pressed),
{
    if 0x01 <= id && id <= 0x06 {
        Some(Event::EncoderPress { index: id - 1, pressed })
    } else if id == 0x07 {
        Some(Event::Button { index: 0, pressed })
    } else if 0x08 <= id && id <= 0x0E {
        Some(Event::Button { index: id - 7, pressed })
    } else {
        None
    }
}

/// A knob id 0x01..=0x06 names encoder e0..e5.
pub open spec fn spec_knob_index(id: u8) -> Option<u8> {
    if 0x01 <= id <= 0x06 {
        Some((id - 1) as u8)
    } else {
        None
    }
}

/// The encoder index of a knob id, if it is one.
pub fn knob_index(id: u8) -> (r: Option<u8>)
    ensures
        r == spec_knob_index(id),
{
    if 0x01 <= id && id <= 0x06 {
        Some(id - 1)
    } else {
        None
    }
}

/// Touch payload: `data[1..3]` is x and `data[3..5]` is y (big-endian). Only
/// touches on the centre grid (x in 60..420, y below 270) map to a screen
/// key; side-strip touches and touches below the three key rows are ignored.
pub open spec fn spec_decode_touch(data: Seq<u8>, end: bool) -> Option<Event> {
    if data.len() < 6 {
        None
    } else {
        let x = from_be16(data[1], data[2]);
        let y = from_be16(data[3], data[4]);
        if !(CENTER_OFFSET <= x < RIGHT_OFFSET) {
            None
        } else {
            let col = (x - CENTER_OFFSET) / (KEY_SIZE as int);
            let row = y / (KEY_SIZE as int);
            if col > 3 || row > 2 {
                None
            } else {
                Some(Event::Key { index: (row * 4 + col) as u8, pressed: !end })
            }
        }
    }
}

/// Decode a touch payload into a key event.
pub fn decode_touch(data: &[u8], end: bool) -> (r: Option<Event>)
    ensures
        r == spec_decode_touch(data@, end),
{
    if data.len() < 6 {
        return None;
    }
    let x: u16 = data[1] as u16 * 256 + data[2] as u16;
    let y: u16 = data[3] as u16 * 256 + data[4] as u16;
    if !(CENTER_OFFSET <= x && x < RIGHT_OFFSET) {
        return None;
    }
    let col: u16 = (x - CENTER_OFFSET) / KEY_SIZE;
    let row: u16 = y / KEY_SIZE;
    if col > 3 || row > 2 {
        return None;
    }
    Some(Event::Key { index: (row * 4 + col) as u8, pressed: !end })
}

/// An inbound message body is `header(2) + txn(1) + data`.
pub open spec fn spec_decode_event(msg: Seq<u8>) -> Option<Event> {
    if msg.len() < 3 {
        None
    } else {
        let header = from_be16(msg[0], msg[1]);
        let data = msg.subrange(3, msg.len() as int);
        if header == BUTTON_PRESS {
            if data.len() < 2 {
                None
            } else {
                spec_button_event(data[0], data[1] == 0x00)
            }
        } else if header == KNOB_ROTATE {
            if data.len() < 1 {
                None
            } else {
                match spec_knob_index(data[0]) {
                    None => None,
                    Some(index) => if data.len() < 2 {
                        None
                    } else {
                        Some(Event::EncoderTurn { index, clockwise: data[1] == 0x01 })
                    },
                }
            }
        } else if header == TOUCH {
            spec_decode_touch(data, false)
        } else if header == TOUCH_END {
            spec_decode_touch(data, true)
        } else {
            None
        }
    }
}

/// Every decoded event names an input that exists on the device: screen keys
/// 0..=11, encoders 0..=5, buttons 0..=7.
pub open spec fn event_in_range(e: Event) -> bool {
    match e {
        Event::Key { index, .. } => index <= 11,
        Event::EncoderTurn { index, .. } => index <= 5,
        Event::EncoderPress { index, .. } => index <= 5,
        Event::Button { index, .. } => index <= 7,
    }
}

/// Whether an event names an input that exists on the device.
pub fn in_range(e: Event) -> (r: bool)
    ensures
        r == event_in_range(e),
{
    match e {
        Event::Key { index, .. } => index <= 11,
        Event::EncoderTurn { index, .. } => index <= 5,
        Event::EncoderPress { index, .. } => index <= 5,
        Event::Button { index, .. } => index <= 7,
    }
}

fn tail_from_3(msg: &[u8]) -> (r: Vec<u8>)
    requires
        msg@.len() >= 3,
    ensures
        r@ == msg@.subrange(3, msg@.len() as int),
{
    let mut r: Vec<u8> = Vec::new();
    let mut i: usize = 3;
    while i < msg.len()
        invariant
            3 <= i <= msg@.len(),
            r@ == msg@.subrange(3, i as int),
        decreases msg@.len() - i,
    {
        r.push(msg[i]);
        assert(msg@.subrange(3, i + 1) =~= msg@.subrange(3, i as int).push(msg@[i as int]));
        i = i + 1;
    }
    r
}

/// Decode an inbound message body (`header(2) + txn(1) + data`) into an event.
pub fn decode_event(msg: &[u8]) -> (r: Option<Event>)
    ensures
        r == spec_decode_event(msg@),
        r matches Some(e) ==> event_in_range(e),
{
    if msg.len() < 3 {
        return None;
    }
    let header: u16 = msg[0] as u16 * 256 + msg[1] as u16;
    let data = tail_from_3(msg);
    let r = if header == BUTTON_PRESS {
        if data.len() < 2 {
            None
        } else {
            button_event(data[0], data[1] == 0x00)
        }
    } else if header == KNOB_ROTATE {
        if data.len() < 1 {
            None
        } else {
            match knob_index(data[0]) {
                None => None,
                Some(index) => if data.len() < 2 {
                    None
                } else {
                    Some(Event::EncoderTurn { index, clockwise: data[1] == 0x01 })
                },
            }
        }
    } else if header == TOUCH {
        decode_touch(data.as_slice(), false)
    } else if header == TOUCH_END {
        decode_touch(data.as_slice(), true)
    } else {
        None
    };
    r
}

/// The LED id of round button `index`: b0 is the circle (0x07), b1..b7 are
/// 0x08..=0x0E.
pub open spec fn spec_led_key(index: u8) -> Option<u8> {
    if index == 0 {
        Some(0x07)
    } else if 1 <= index <= 7 {
        Some((0x07 + index) as u8)
    } else {
        None
    }
}

/// The LED id of round button b0..=b7.
pub fn led_key(index: u8) -> (r: Option<u8>)
    ensures
        r == spec_led_key(index),
{
    if index == 0 {
        Some(0x07)
    } else if 1 <= index && index <= 7 {
        Some(0x07 + index)
    } else {
        None
    }
}

/// The id that colours button `b{i}` is the id that reports its presses, and
/// only buttons b0..=b7 have one.
pub proof fn lemma_led_key_matches_button_event(index: u8, pressed: bool)
    ensures
        index <= 7 <==> spec_led_key(index) is Some,
        spec_led_key(index) matches Some(id) ==> spec_button_event(id, pressed) == Some(
            Event::Button { index, pressed },
        ),
{
}

/// A knob id reports both the rotation and the push of the same encoder.
pub proof fn lemma_knob_index_matches_button_event(id: u8, pressed: bool)
    ensures
        spec_knob_index(id) matches Some(i) ==> spec_button_event(id, pressed) == Some(
            Event::EncoderPress { index: i, pressed },
        ),
        spec_knob_index(id) is None ==> !(spec_button_event(id, pressed) matches Some(
            Event::EncoderPress { .. },
        )),
{
}

/// A touch anywhere inside the square of key `k` (column `k % 4`, row
/// `k / 4` of the centre grid) reports that key.
pub proof fn lemma_touch_inside_key(data: Seq<u8>, k: int, end: bool)
    requires
        0 <= k < 12,
        data.len() >= 6,
        CENTER_OFFSET + (k % 4) * 90 <= from_be16(data[1], data[2]) < CENTER_OFFSET + (k % 4)
            * 90 + 90,
        (k / 4) * 90 <= from_be16(data[3], data[4]) < (k / 4) * 90 + 90,
    ensures
        spec_decode_touch(data, end) == Some(Event::Key { index: k as u8, pressed: !end }),
{
    let x = from_be16(data[1], data[2]);
    let y = from_be16(data[3], data[4]);
    assert((x - 60) / 90 == k % 4);
    assert(y / 90 == k / 4);
}

// ---------------------------------------------------------------------------
// The inbound stream
// ---------------------------------------------------------------------------

/// The events reported by a list of message bodies, in order, skipping the
/// ones that do not decode.
pub open spec fn decode_all(msgs: Seq<Seq<u8>>) -> Seq<Event>
    decreases msgs.len(),
{
    if msgs.len() == 0 {
        Seq::empty()
    } else {
        let rest = decode_all(msgs.drop_last());
        match spec_decode_event(msgs.last()) {
            Some(e) => rest.push(e),
            None => rest,
        }
    }
}

/// Decoding a concatenation decodes each part.
pub proof fn lemma_decode_all_concat(m1: Seq<Seq<u8>>, m2: Seq<Seq<u8>>)
    ensures
        decode_all(m1 + m2) == decode_all(m1) + decode_all(m2),
    decreases m2.len(),
{
    if m2.len() == 0 {
        assert(m1 + m2 =~= m1);
        assert(decode_all(m1) + decode_all(m2) =~= decode_all(m1));
    } else {
        assert((m1 + m2).drop_last() =~= m1 + m2.drop_last());
        assert((m1 + m2).last() == m2.last());
        lemma_decode_all_concat(m1, m2.drop_last());
        match spec_decode_event(m2.last()) {
            Some(e) => {
                assert(decode_all(m1) + decode_all(m2.drop_last()).push(e) =~= (decode_all(m1)
                    + decode_all(m2.drop_last())).push(e));
            },
            None => {},
        }
    }
}

/// The events a reader emits when `chunk` arrives while `buffer` is held,
/// and the bytes it holds afterwards.
pub open spec fn spec_feed(buffer: Seq<u8>, chunk: Seq<u8>) -> (Seq<Event>, Seq<u8>) {
    let (msgs, rest) = spec_parse_frames(buffer + chunk);
    (decode_all(msgs), rest)
}

/// Feeding two chunks one after the other emits the same events, and leaves
/// the same bytes held, as feeding them joined.
pub proof fn lemma_feed_chunked(buffer: Seq<u8>, a: Seq<u8>, c: Seq<u8>)
    ensures
        ({
            let (e1, r1) = spec_feed(buffer, a);
            let (e2, r2) = spec_feed(r1, c);
            spec_feed(buffer, a + c) == (e1 + e2, r2)
        }),
{
    assert(buffer + (a + c) =~= (buffer + a) + c);
    lemma_parse_frames_chunked(buffer + a, c);
    let (m1, r1) = spec_parse_frames(buffer + a);
    let (m2, r2) = spec_parse_frames(r1 + c);
    lemma_decode_all_concat(m1, m2);
}

/// The inbound side of the connection: the bytes of a frame not yet
/// complete, between reads.
pub struct Reader {
    buffer: Vec<u8>,
}

impl Reader {
    /// The bytes held for the next read.
    pub closed spec fn held(&self) -> Seq<u8> {
        self.buffer@
    }

    /// A reader holding nothing.
    pub fn new() -> (r: Reader)
        ensures
            r.held() == Seq::<u8>::empty(),
    {
        Reader { buffer: Vec::new() }
    }

    /// Take in the bytes of one read: decode every frame that is now
    /// complete and return its events in order, keeping an incomplete one.
    pub fn feed(&mut self, chunk: &[u8]) -> (events: Vec<Event>)
        ensures
            events@ == spec_feed(old(self).held(), chunk@).0,
            final(self).held() == spec_feed(old(self).held(), chunk@).1,
    {
        push_all(&mut self.buffer, chunk);
        let msgs = parse_frames(&mut self.buffer);
        let mut events: Vec<Event> = Vec::new();
        let mut i: usize = 0;
        while i < msgs.len()
            invariant
                i <= msgs@.len(),
                events@ == decode_all(views(msgs@).subrange(0, i as int)),
            decreases msgs@.len() - i,
        {
            let ghost before = views(msgs@).subrange(0, i as int);
            assert(views(msgs@).subrange(0, i + 1).drop_last() =~= before);
            if let Some(e) = decode_event(msgs[i].as_slice()) {
                events.push(e);
            }
            i = i + 1;
        }
        assert(views(msgs@).subrange(0, msgs@.len() as int) =~= views(msgs@));
        events
    }
}

// ---------------------------------------------------------------------------
// Outbound commands
// ---------------------------------------------------------------------------

/// Why a command could not be built.
#[derive(Debug, Clone, PartialEq, Eq, Structural)]
pub enum DeviceError {
    /// Only round buttons b0..=b7 have an LED.
    LedIndex,
    /// A framebuffer write must carry exactly `w * h * 2` bytes.
    FramebufferSize { got: usize, expected: usize },
}

/// The transaction id after `t`: ids count up and wrap, skipping 0, which
/// the firmware ignores.
pub open spec fn next_txn(t: u8) -> u8 {
    if t == 255 {
        1
    } else {
        (t + 1) as u8
    }
}

/// The frame of one action: `header(2) + txn(1) + data`, framed.
pub open spec fn action_frame(action: u16, txn: u8, data: Seq<u8>) -> Seq<u8> {
    spec_ws_frame(be16(action) + seq![txn] + data)
}

/// The screen position of centre key `index`: four keys per row.
pub open spec fn key_origin(index: u8) -> (u16, u16) {
    (
        ((index % 4) * KEY_SIZE + CENTER_OFFSET) as u16,
        ((index / 4) * KEY_SIZE) as u16,
    )
}

/// The screen position of a side strip: the left one at the left edge,
/// the right one beside the centre grid.
pub open spec fn strip_origin(right: bool) -> (u16, u16) {
    if right {
        (RIGHT_OFFSET, 0)
    } else {
        (0, 0)
    }
}

/// The screen is 480 x 270: a 60-wide strip on each side of a 4 x 3 grid
/// of 90 x 90 keys. The left strip starts at the left edge, the grid right
/// after it, and the right strip right after the grid's last column; every
/// strip and every key square is fully on the screen.
pub proof fn lemma_screen_geometry(k: u8)
    requires
        k < 12,
    ensures
        KEY_SIZE == 90 && SIDE_W == 60 && SIDE_H == 270,
        strip_origin(false) == (0u16, 0u16),
        strip_origin(true) == (420u16, 0u16),
        strip_origin(false).0 + SIDE_W == key_origin(0).0,
        key_origin(3).0 + KEY_SIZE == strip_origin(true).0,
        strip_origin(true).0 + SIDE_W == 480,
        key_origin(k).0 + KEY_SIZE <= 480 && key_origin(k).1 + KEY_SIZE <= 270,
        key_origin(8).1 + KEY_SIZE == SIDE_H,
{
    lemma_key_origin(k);
    lemma_key_origin(0);
    lemma_key_origin(3);
    lemma_key_origin(8);
}

/// A touch on either side strip, or below the key rows, reports nothing.
pub proof fn lemma_strip_touch_ignored(data: Seq<u8>, end: bool)
    requires
        data.len() >= 6,
        from_be16(data[1], data[2]) < 60 || from_be16(data[1], data[2]) >= 420 || from_be16(
            data[3],
            data[4],
        ) >= 270,
    ensures
        spec_decode_touch(data, end) is None,
{
}

/// The bytes of the commands on the wire, for transaction id `t`: the
/// brightness step, an LED colour for button `b`, the refresh, and a
/// framebuffer write of `buf` at (x, y), `w` x `h`.
pub proof fn lemma_command_bytes(
    t: u8,
    step: u8,
    b: u8,
    c: [u8; 3],
    x: u16,
    y: u16,
    w: u16,
    h: u16,
    buf: Seq<u8>,
)
    requires
        b < 8,
        buf.len() + 13 < 0x1_0000_0000,
        buf.len() + 13 > 0x80,
    ensures
        action_frame(SET_BRIGHTNESS, t, seq![step]) == seq![0x82u8, 0x84u8, 0u8, 0u8, 0u8, 0u8, 0x04u8, 0x09u8, t, step],
        spec_led_key(b) == Some((0x07 + b) as u8),
        action_frame(SET_COLOR, t, seq![(0x07 + b) as u8, c[0], c[1], c[2]]) == seq![
            0x82u8, 0x87u8, 0u8, 0u8, 0u8, 0u8, 0x07u8, 0x02u8, t, (0x07 + b) as u8, c[0], c[1], c[2],
        ],
        action_frame(DRAW, t, seq![0x00u8, 0x4Du8]) == seq![0x82u8, 0x85u8, 0u8, 0u8, 0u8, 0u8, 0x05u8, 0x0Fu8, t, 0x00u8, 0x4Du8],
        action_frame(WRITE_FRAMEBUFF, t, framebuffer_payload(x, y, w, h, buf)) == seq![
            0x82u8, 0xFFu8, 0u8, 0u8, 0u8, 0u8,
            ((buf.len() + 13) / 0x100_0000) as u8,
            (((buf.len() + 13) / 0x1_0000) % 256) as u8,
            (((buf.len() + 13) / 256) % 256) as u8,
            ((buf.len() + 13) % 256) as u8,
            0u8, 0u8, 0u8, 0u8,
            0xFFu8, 0x10u8, t, 0x00u8, 0x4Du8,
            (x / 256) as u8, (x % 256) as u8,
            (y / 256) as u8, (y % 256) as u8,
            (w / 256) as u8, (w % 256) as u8,
            (h / 256) as u8, (h % 256) as u8,
        ] + buf,
{
    assert(action_frame(SET_BRIGHTNESS, t, seq![step]) =~= seq![0x82u8, 0x84u8, 0u8, 0u8, 0u8, 0u8, 0x04u8, 0x09u8, t, step]);
    assert(action_frame(SET_COLOR, t, seq![(0x07 + b) as u8, c[0], c[1], c[2]]) =~= seq![
        0x82u8, 0x87u8, 0u8, 0u8, 0u8, 0u8, 0x07u8, 0x02u8, t, (0x07 + b) as u8, c[0], c[1], c[2],
    ]);
    assert(action_frame(DRAW, t, seq![0x00u8, 0x4Du8]) =~= seq![0x82u8, 0x85u8, 0u8, 0u8, 0u8, 0u8, 0x05u8, 0x0Fu8, t, 0x00u8, 0x4Du8]);
    let p = be16(WRITE_FRAMEBUFF) + seq![t] + framebuffer_payload(x, y, w, h, buf);
    assert(p.len() == buf.len() + 13);
    assert(action_frame(WRITE_FRAMEBUFF, t, framebuffer_payload(x, y, w, h, buf)) =~= seq![
        0x82u8, 0xFFu8, 0u8, 0u8, 0u8, 0u8,
        ((buf.len() + 13) / 0x100_0000) as u8,
        (((buf.len() + 13) / 0x1_0000) % 256) as u8,
        (((buf.len() + 13) / 256) % 256) as u8,
        ((buf.len() + 13) % 256) as u8,
        0u8, 0u8, 0u8, 0u8,
        0xFFu8, 0x10u8, t, 0x00u8, 0x4Du8,
        (x / 256) as u8, (x % 256) as u8,
        (y / 256) as u8, (y % 256) as u8,
        (w / 256) as u8, (w % 256) as u8,
        (h / 256) as u8, (h % 256) as u8,
    ] + buf);
}

/// What the device reports, by the bytes of a message body (`header(2) +
/// txn(1) + data`): a button message `05 00` with id 0x01..0x06 pushes
/// encoder 0..5 and with id 0x07..0x0E button b0..b7, down when the state
/// byte is 0; a knob message `05 01` turns encoder 0..5, clockwise when the
/// direction byte is 1; `09 4D` and `09 6D` are touches and their ends.
pub proof fn lemma_inbound_messages(t: u8, i: u8, b: u8, state: u8, rest: Seq<u8>, data: Seq<u8>)
    requires
        i < 6,
        b < 8,
    ensures
        spec_decode_event(seq![0x05u8, 0x00u8, t, (0x01 + i) as u8, state] + rest) == Some(
            Event::EncoderPress { index: i, pressed: state == 0 },
        ),
        spec_decode_event(seq![0x05u8, 0x00u8, t, (0x07 + b) as u8, state] + rest) == Some(
            Event::Button { index: b, pressed: state == 0 },
        ),
        spec_decode_event(seq![0x05u8, 0x01u8, t, (0x01 + i) as u8, state] + rest) == Some(
            Event::EncoderTurn { index: i, clockwise: state == 1 },
        ),
        spec_decode_event(seq![0x09u8, 0x4Du8, t] + data) == spec_decode_touch(data, false),
        spec_decode_event(seq![0x09u8, 0x6Du8, t] + data) == spec_decode_touch(data, true),
{
    let m1 = seq![0x05u8, 0x00u8, t, (0x01 + i) as u8, state] + rest;
    assert(m1.subrange(3, m1.len() as int) =~= seq![(0x01 + i) as u8, state] + rest);
    let m2 = seq![0x05u8, 0x00u8, t, (0x07 + b) as u8, state] + rest;
    assert(m2.subrange(3, m2.len() as int) =~= seq![(0x07 + b) as u8, state] + rest);
    let m3 = seq![0x05u8, 0x01u8, t, (0x01 + i) as u8, state] + rest;
    assert(m3.subrange(3, m3.len() as int) =~= seq![(0x01 + i) as u8, state] + rest);
    let m4 = seq![0x09u8, 0x4Du8, t] + data;
    assert(m4.subrange(3, m4.len() as int) =~= data);
    let m5 = seq![0x09u8, 0x6Du8, t] + data;
    assert(m5.subrange(3, m5.len() as int) =~= data);
}

/// Key `k` is drawn at column `k % 4` and row `k / 4` of the centre grid:
/// its square starts 60 + (k % 4) * 90 across and (k / 4) * 90 down, and lies
/// within the centre area of the screen.
pub proof fn lemma_key_origin(k: u8)
    requires
        k < 12,
    ensures
        key_origin(k).0 == 60 + (k % 4) * 90,
        key_origin(k).1 == (k / 4) * 90,
        60 <= key_origin(k).0 && key_origin(k).0 + 90 <= 420,
        key_origin(k).1 + 90 <= 270,
{
}

/// A touch anywhere inside the square that key `k` is drawn in reports key
/// `k`.
pub proof fn lemma_drawn_key_is_touched(data: Seq<u8>, k: u8, end: bool)
    requires
        k < 12,
        data.len() >= 6,
        key_origin(k).0 <= from_be16(data[1], data[2]) < key_origin(k).0 + 90,
        key_origin(k).1 <= from_be16(data[3], data[4]) < key_origin(k).1 + 90,
    ensures
        spec_decode_touch(data, end) == Some(Event::Key { index: k, pressed: !end }),
{
    lemma_key_origin(k);
    lemma_touch_inside_key(data, k as int, end);
}

/// The payload of a framebuffer write: display id, then x, y, w, h
/// (big-endian) and the pixels.
pub open spec fn framebuffer_payload(x: u16, y: u16, w: u16, h: u16, buf: Seq<u8>) -> Seq<u8> {
    seq![0x00u8, 0x4Du8] + be16(x) + be16(y) + be16(w) + be16(h) + buf
}

/// The outbound side of the deck protocol: the transaction counter and the
/// frames that each command puts on the wire. Writing them is the caller's
/// job; a command's frame is built just before it is written.
pub struct LoupedeckLive {
    txn: u8,
}

impl LoupedeckLive {
    /// The id of the last transaction sent (0 before the first).
    pub closed spec fn last_txn(&self) -> u8 {
        self.txn
    }

    /// A fresh connection: no transaction sent yet.
    pub fn new() -> (r: LoupedeckLive)
        ensures
            r.last_txn() == 0,
    {
        LoupedeckLive { txn: 0 }
    }

    /// Build `header(2) + txn(1) + data` under the next transaction id and
    /// frame it.
    pub fn do_action(&mut self, action: u16, data: &[u8]) -> (frame: Vec<u8>)
        requires
            data@.len() + 3 != 0x80,
        ensures
            final(self).last_txn() == next_txn(old(self).last_txn()),
            final(self).last_txn() != 0,
            frame@ == action_frame(action, final(self).last_txn(), data@),
    {
        self.txn = if self.txn == 255 {
            1
        } else {
            self.txn + 1
        };
        let mut payload: Vec<u8> = Vec::new();
        push_be16(&mut payload, action);
        payload.push(self.txn);
        push_all(&mut payload, data);
        assert(payload@ =~= be16(action) + seq![self.txn] + data@);
        ws_frame(payload.as_slice())
    }

    /// Set screen and LED brightness to `step` (the device resolves 0..=10).
    pub fn set_brightness(&mut self, step: u8) -> (frame: Vec<u8>)
        ensures
            final(self).last_txn() == next_txn(old(self).last_txn()),
            frame@ == action_frame(SET_BRIGHTNESS, final(self).last_txn(), seq![step]),
    {
        let data: [u8; 1] = [step];
        let f = self.do_action(SET_BRIGHTNESS, &data);
        assert(data@ =~= seq![step]);
        f
    }

    /// Set the LED colour of round button b0..=b7.
    pub fn set_button_color(&mut self, index: u8, rgb: [u8; 3]) -> (r: Result<Vec<u8>, DeviceError>)
        ensures
            match spec_led_key(index) {
                None => r == Err::<Vec<u8>, DeviceError>(DeviceError::LedIndex) && final(self).last_txn()
                    == old(self).last_txn(),
                Some(key) => (r matches Ok(frame) && final(self).last_txn() == next_txn(
                    old(self).last_txn(),
                ) && frame@ == action_frame(
                    SET_COLOR,
                    final(self).last_txn(),
                    seq![key, rgb[0], rgb[1], rgb[2]],
                )),
            },
    {
        match led_key(index) {
            None => Err(DeviceError::LedIndex),
            Some(key) => {
                let data: [u8; 4] = [key, rgb[0], rgb[1], rgb[2]];
                let f = self.do_action(SET_COLOR, &data);
                assert(data@ =~= seq![key, rgb[0], rgb[1], rgb[2]]);
                Ok(f)
            },
        }
    }

    /// Write a `w`x`h` RGB565 buffer at (x, y) into the framebuffer.
    pub fn write_framebuffer(&mut self, x: u16, y: u16, w: u16, h: u16, buf: &[u8]) -> (r: Result<
        Vec<u8>,
        DeviceError,
    >)
        requires
            w * h * 2 <= usize::MAX,
        ensures
            buf@.len() != w * h * 2 ==> r == Err::<Vec<u8>, DeviceError>(
                DeviceError::FramebufferSize { got: buf@.len() as usize, expected: (w * h * 2) as usize },
            ) && final(self).last_txn() == old(self).last_txn(),
            buf@.len() == w * h * 2 ==> (r matches Ok(frame) && final(self).last_txn() == next_txn(
                old(self).last_txn(),
            ) && frame@ == action_frame(
                WRITE_FRAMEBUFF,
                final(self).last_txn(),
                framebuffer_payload(x, y, w, h, buf@),
            )),
    {
        let expected: usize = w as usize * h as usize * 2;
        if buf.len() != expected {
            return Err(DeviceError::FramebufferSize { got: buf.len(), expected });
        }
        let mut payload: Vec<u8> = Vec::new();
        payload.push(0x00);
        payload.push(0x4D);
        push_be16(&mut payload, x);
        push_be16(&mut payload, y);
        push_be16(&mut payload, w);
        push_be16(&mut payload, h);
        push_all(&mut payload, buf);
        assert(payload@ =~= framebuffer_payload(x, y, w, h, buf@));
        Ok(self.do_action(WRITE_FRAMEBUFF, payload.as_slice()))
    }

    /// Push the framebuffer to the screen.
    pub fn refresh(&mut self) -> (frame: Vec<u8>)
        ensures
            final(self).last_txn() == next_txn(old(self).last_txn()),
            frame@ == action_frame(DRAW, final(self).last_txn(), seq![0x00u8, 0x4Du8]),
    {
        let data: [u8; 2] = [0x00, 0x4D];
        let f = self.do_action(DRAW, &data);
        assert(data@ =~= seq![0x00u8, 0x4Du8]);
        f
    }

    /// Write a buffer into the framebuffer, then push the framebuffer to the
    /// screen: the write's frame and the refresh's frame, in order.
    fn write_and_refresh(&mut self, x: u16, y: u16, w: u16, h: u16, buf: &[u8]) -> (r: Result<
        (Vec<u8>, Vec<u8>),
        DeviceError,
    >)
        requires
            w * h * 2 <= usize::MAX,
        ensures
            spec_drawn(old(self).last_txn(), final(self).last_txn(), x, y, w, h, buf@, r),
    {
        let write = self.write_framebuffer(x, y, w, h, buf);
        match write {
            Err(e) => Err(e),
            Ok(frame) => Ok((frame, self.refresh())),
        }
    }

    /// Draw a 90x90 RGB565 buffer to centre key `index`: the framebuffer
    /// write and the refresh that shows it.
    pub fn draw_key(&mut self, index: u8, rgb565: &[u8]) -> (r: Result<(Vec<u8>, Vec<u8>), DeviceError>)
        ensures
            spec_drawn(
                old(self).last_txn(),
                final(self).last_txn(),
                key_origin(index).0,
                key_origin(index).1,
                KEY_SIZE,
                KEY_SIZE,
                rgb565@,
                r,
            ),
    {
        let x: u16 = (index as u16 % 4) * KEY_SIZE + CENTER_OFFSET;
        let y: u16 = (index as u16 / 4) * KEY_SIZE;
        self.write_and_refresh(x, y, KEY_SIZE, KEY_SIZE, rgb565)
    }

    /// Draw a 60x270 RGB565 buffer to the left side strip, and show it.
    pub fn draw_left(&mut self, rgb565: &[u8]) -> (r: Result<(Vec<u8>, Vec<u8>), DeviceError>)
        ensures
            spec_drawn(
                old(self).last_txn(),
                final(self).last_txn(),
                strip_origin(false).0,
                strip_origin(false).1,
                SIDE_W,
                SIDE_H,
                rgb565@,
                r,
            ),
    {
        self.write_and_refresh(0, 0, SIDE_W, SIDE_H, rgb565)
    }

    /// Draw a 60x270 RGB565 buffer to the right side strip, and show it.
    pub fn draw_right(&mut self, rgb565: &[u8]) -> (r: Result<(Vec<u8>, Vec<u8>), DeviceError>)
        ensures
            spec_drawn(
                old(self).last_txn(),
                final(self).last_txn(),
                strip_origin(true).0,
                strip_origin(true).1,
                SIDE_W,
                SIDE_H,
                rgb565@,
                r,
            ),
    {
        self.write_and_refresh(RIGHT_OFFSET, 0, SIDE_W, SIDE_H, rgb565)
    }
}

/// What drawing a `w`x`h` buffer at (x, y) does, from transaction `before`
/// to `after`: a buffer of the wrong size is refused with nothing sent;
/// otherwise the write goes out under the next id and the refresh under
/// the one after.
pub open spec fn spec_drawn(
    before: u8,
    after: u8,
    x: u16,
    y: u16,
    w: u16,
    h: u16,
    buf: Seq<u8>,
    r: Result<(Vec<u8>, Vec<u8>), DeviceError>,
) -> bool {
    if buf.len() != w * h * 2 {
        &&& r == Err::<(Vec<u8>, Vec<u8>), DeviceError>(
            DeviceError::FramebufferSize { got: buf.len() as usize, expected: (w * h * 2) as usize },
        )
        &&& after == before
    } else {
        &&& r matches Ok((write, show))
        &&& write@ == action_frame(WRITE_FRAMEBUFF, next_txn(before), framebuffer_payload(x, y, w, h, buf))
        &&& show@ == action_frame(DRAW, next_txn(next_txn(before)), seq![0x00u8, 0x4Du8])
        &&& after == next_txn(next_txn(before))
    }
}

/// After any number of actions the transaction id is never 0: every id in
/// 1..=255 is used in turn.
pub proof fn lemma_next_txn_cycle(t: u8)
    ensures
        next_txn(t) != 0,
        t < 255 ==> next_txn(t) == t + 1,
        next_txn(0) == 1,
        next_txn(255) == 1,
{
}

// ---------------------------------------------------------------------------
// Connection set-up decisions
// ---------------------------------------------------------------------------

/// The reply line that tells the upgrade handshake succeeded.
pub open spec fn switching_protocols() -> Seq<u8> {
    seq![
        0x31u8, 0x30, 0x31, 0x20, 0x53, 0x77, 0x69, 0x74, 0x63, 0x68, 0x69, 0x6e, 0x67, 0x20,
        0x50, 0x72, 0x6f, 0x74, 0x6f, 0x63, 0x6f, 0x6c, 0x73,
    ]
}

/// Whether `acc` holds the bytes `101 Switching Protocols` somewhere.
pub open spec fn spec_handshake_done(acc: Seq<u8>) -> bool {
    exists|i: int| 0 <= i && i + 23 <= acc.len() && #[trigger] acc.subrange(i, i + 23) == switching_protocols()
}

/// Whether the bytes read so far contain the `101 Switching Protocols` reply.
pub fn handshake_done(acc: &[u8]) -> (r: bool)
    ensures
        r == spec_handshake_done(acc@),
{
    let pat: [u8; 23] = [
        0x31, 0x30, 0x31, 0x20, 0x53, 0x77, 0x69, 0x74, 0x63, 0x68, 0x69, 0x6e, 0x67, 0x20,
        0x50, 0x72, 0x6f, 0x74, 0x6f, 0x63, 0x6f, 0x6c, 0x73,
    ];
    assert(pat@ =~= switching_protocols());
    let n = acc.len();
    if n < 23 {
        return false;
    }
    let mut i: usize = 0;
    while i <= n - 23
        invariant
            n == acc@.len(),
            n >= 23,
            i <= n - 22,
            pat@ == switching_protocols(),
            forall|k: int| 0 <= k < i ==> #[trigger] acc@.subrange(k, k + 23) != switching_protocols(),
        decreases n - i,
    {
        let mut j: usize = 0;
        let mut same = true;
        while j < 23
            invariant
                j <= 23,
                n == acc@.len(),
                i + 23 <= n,
                same == (forall|m: int| 0 <= m < j ==> acc@[i + m] == pat@[m]),
            decreases 23 - j,
        {
            if acc[i + j] != pat[j] {
                same = false;
            }
            j = j + 1;
        }
        if same {
            assert(acc@.subrange(i as int, i + 23) =~= switching_protocols());
            return true;
        }
        assert(acc@.subrange(i as int, i + 23) != switching_protocols()) by {
            let m = choose|m: int| 0 <= m < 23 && acc@[i + m] != pat@[m];
            assert(acc@.subrange(i as int, i + 23)[m] != switching_protocols()[m]);
        }
        i = i + 1;
    }
    false
}

/// The handshake is done once the bytes read hold the reply line
/// `101 Switching Protocols` anywhere, whatever comes before or after it;
/// fewer than 23 bytes never hold it.
pub proof fn lemma_handshake_reply(pre: Seq<u8>, post: Seq<u8>, short: Seq<u8>)
    requires
        short.len() < 23,
    ensures
        switching_protocols() == seq![
            '1' as u8, '0' as u8, '1' as u8, ' ' as u8, 'S' as u8, 'w' as u8, 'i' as u8, 't' as u8,
            'c' as u8, 'h' as u8, 'i' as u8, 'n' as u8, 'g' as u8, ' ' as u8, 'P' as u8, 'r' as u8,
            'o' as u8, 't' as u8, 'o' as u8, 'c' as u8, 'o' as u8, 'l' as u8, 's' as u8,
        ],
        spec_handshake_done(pre + switching_protocols() + post),
        !spec_handshake_done(short),
{
    let acc = pre + switching_protocols() + post;
    let i = pre.len() as int;
    assert(acc.subrange(i, i + 23) =~= switching_protocols());
    assert(seq![
        '1' as u8, '0' as u8, '1' as u8, ' ' as u8, 'S' as u8, 'w' as u8, 'i' as u8, 't' as u8,
        'c' as u8, 'h' as u8, 'i' as u8, 'n' as u8, 'g' as u8, ' ' as u8, 'P' as u8, 'r' as u8,
        'o' as u8, 't' as u8, 'o' as u8, 'c' as u8, 'o' as u8, 'l' as u8, 's' as u8,
    ] =~= switching_protocols());
}

/// A Loupedeck is the port whose USB vendor id is 0x2EC2.
pub proof fn lemma_loupedeck_vid(p: PortInfo)
    ensures
        is_loupedeck(p) <==> p.usb_vid == Some(0x2EC2u16),
{
}

/// A serial port as the system lists it: its name, and the USB vendor id
/// when it is a USB port.
#[derive(Debug, Clone)]
pub struct PortInfo {
    pub name: String,
    pub usb_vid: Option<u16>,
}

/// Whether a listed port is a Loupedeck.
pub open spec fn is_loupedeck(p: PortInfo) -> bool {
    p.usb_vid == Some(LOUPEDECK_VID)
}

impl LoupedeckLive {
    /// The name of the first Loupedeck port in `ports`, if any.
    pub fn find_port(ports: &[PortInfo]) -> (r: Option<String>)
        ensures
            match r {
                None => forall|i: int| 0 <= i < ports@.len() ==> !is_loupedeck(#[trigger] ports@[i]),
                Some(name) => exists|i: int|
                    0 <= i < ports@.len() && is_loupedeck(#[trigger] ports@[i]) && name == ports@[i].name
                        && forall|k: int| 0 <= k < i ==> !is_loupedeck(#[trigger] ports@[k]),
            },
    {
        let mut i: usize = 0;
        while i < ports.len()
            invariant
                i <= ports@.len(),
                forall|k: int| 0 <= k < i ==> !is_loupedeck(#[trigger] ports@[k]),
            decreases ports@.len() - i,
        {
            let is_deck = match ports[i].usb_vid {
                Some(v) => v == LOUPEDECK_VID,
                None => false,
            };
            if is_deck {
                let name = ports[i].name.clone();
                assert(is_loupedeck(ports@[i as int]));
                return Some(name);
            }
            i = i + 1;
        }
        None
    }
}

} // verus!
