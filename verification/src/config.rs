//! Profile schema: one deck's pages, what each input does (`Action`) and
//! what each surface shows (`Draw`), with the validation that the schema
//! itself cannot express.
//!
//! Hardware vocabulary (Loupedeck Live):
//!   - keys      `0..=11`  the 4x3 touch grid (90x90 each)
//!   - encoders  `e0..=e5` six rotary knobs; `e0..e2` draw to the left
//!                         side strip, `e3..e5` to the right (each cell 60x90)
//!   - leds      `b0..=b7` eight round RGB buttons below the screen
//!
//! Maps of the profile file are held as lists of `(key, value)` pairs in key
//! order, each key once. Floating-point settings are held as their IEEE-754
//! bit patterns (`f32::to_bits` / `f64::to_bits`); the library compares and
//! forwards them but never computes with them.

use vstd::prelude::*;

use crate::text::{
    all_digits, codes, decimal, digit_value, digits_nat, lemma_decimal_numeral, lemma_numeral_digits,
    lemma_numeral_parses, numeral, parse_uint, push_char, push_decimal, chars_of, codes_of,
    parse_unsigned,
};

verus! {

broadcast use vstd::string::group_string_axioms;

/// The deck model a profile is written for.
#[derive(Debug, Clone, Copy, PartialEq, Eq, Structural)]
pub enum Device {
    LoupedeckLive,
}

/// Where to reach the simulator.
#[derive(Debug)]
pub struct Sim {
    /// `"auto"` to discover via the X-Plane UDP beacon, or a host/IP.
    pub host: String,
    pub port: u16,
}

/// The bit pattern of the default brightness, 0.7 (`f32`).
pub fn default_brightness() -> (r: u32)
    ensures
        r == 0x3F33_3333,
{
    0x3F33_3333
}

/// The default simulator host: discover it.
pub fn default_host() -> (r: String)
    ensures
        r@ == "auto"@,
{
    String::from_str("auto")
}

/// The default Web API port.
pub fn default_port() -> (r: u16)
    ensures
        r == 8086,
{
    8086
}

impl Sim {
    /// The defaults: discover the host, port 8086.
    pub fn default() -> (r: Sim)
        ensures
            r.host@ == "auto"@,
            r.port == 8086,
    {
        Sim { host: default_host(), port: default_port() }
    }
}

/// What an input does.
#[derive(Debug)]
pub enum Action {
    /// Fire an X-Plane command (momentary press and release).
    Command { command: String },
    /// Switch the deck to another page.
    Page { page: String },
    /// Write a dataref; `value` is the bit pattern of the `f64` to write.
    SetDataref { dataref: String, value: u64 },
}

/// What a surface shows: a static `text` label and/or a live `value` (a
/// dataref), transformed by `scale`/`offset` and rendered with `format`.
#[derive(Debug)]
pub struct Draw {
    pub text: Option<String>,
    /// Dataref path whose value is displayed.
    pub value: Option<String>,
    /// Format applied to the value, e.g. `"{:.0}"`; default `"{}"`.
    pub format: Option<String>,
    /// Bit pattern of the `f64` scale (default 1).
    pub scale: Option<u64>,
    /// Bit pattern of the `f64` offset (default 0).
    pub offset: Option<u64>,
    pub text_color: Option<String>,
    pub bg_color: Option<String>,
    /// Icon name or hex codepoint: draws an icon key.
    pub icon: Option<String>,
    /// Colour of a lit annunciator: draws an annunciator key.
    pub lit_color: Option<String>,
}

/// A screen key.
#[derive(Debug)]
pub struct Key {
    pub draw: Option<Draw>,
    pub press: Option<Action>,
    pub long_press: Option<Action>,
}

/// A rotary encoder; its `draw` goes to its side-strip cell.
#[derive(Debug)]
pub struct Encoder {
    pub draw: Option<Draw>,
    pub turn_cw: Option<Action>,
    pub turn_ccw: Option<Action>,
    pub press: Option<Action>,
}

/// A round LED button.
#[derive(Debug)]
pub struct Led {
    /// `#rrggbb`, `#rgb` or a named colour.
    pub color: Option<String>,
    pub press: Option<Action>,
}

/// One page of the deck. Each list is keyed (key index, encoder id, LED id)
/// and holds a key once, as the profile file's maps do; a lookup takes the
/// first entry for a key.
#[derive(Debug)]
pub struct Page {
    pub keys: Vec<(u8, Key)>,
    pub encoders: Vec<(String, Encoder)>,
    pub leds: Vec<(String, Led)>,
}

/// A whole profile, one per file. The keyed lists hold each key once, as
/// the file's maps do.
#[derive(Debug)]
pub struct Profile {
    pub device: Device,
    /// Bit pattern of the `f32` screen/LED brightness, 0.0..=1.0.
    pub brightness: u32,
    pub sim: Sim,
    /// Name of the page shown at startup.
    pub home: String,
    pub pages: Vec<(String, Page)>,
    /// Encoders every page inherits unless it defines the same id.
    pub encoders: Vec<(String, Encoder)>,
    /// LEDs every page inherits unless it defines the same id.
    pub leds: Vec<(String, Led)>,
}

/// Which kind of id a check is about.
#[derive(Debug, Clone, Copy, PartialEq, Eq, Structural)]
pub enum IdKind {
    Encoder,
    Led,
}

/// Why a profile is rejected.
#[derive(Debug)]
pub enum ConfigError {
    /// The brightness (bit pattern) is not within 0.0..=1.0.
    Brightness(u32),
    /// The home page is not one of the pages.
    UndefinedHome(String),
    /// A key index beyond 11.
    KeyOutOfRange { page: String, index: u8 },
    /// An encoder or LED id that is not `e0..=e5` / `b0..=b7`.
    InvalidId { page: String, kind: IdKind, id: String, prefix: char, max: u8 },
    /// A page action names a page that does not exist.
    UndefinedPage { page: String, target: String },
}

// ---------------------------------------------------------------------------
// Specification
// ---------------------------------------------------------------------------

/// Whether the `f32` with bit pattern `bits` lies in 0.0..=1.0: +0.0 through
/// 1.0 are the patterns up to 0x3F80_0000, and -0.0 (0x8000_0000) equals
/// 0.0; every other pattern is negative, above 1.0, or NaN.
pub open spec fn f32_in_unit_interval(bits: u32) -> bool {
    bits <= 0x3F80_0000 || bits == 0x8000_0000
}

/// Whether a page named `name` exists.
pub open spec fn has_page(pages: Seq<(String, Page)>, name: Seq<char>) -> bool {
    exists|i: int| 0 <= i < pages.len() && (#[trigger] pages[i]).0@ == name
}

/// Whether `id` is `prefix` followed by the decimal numeral (no sign, no
/// leading zero) of a number of at most `max`: `e0` to `e5` for encoders.
pub open spec fn valid_id(id: Seq<char>, prefix: char, max: nat) -> bool {
    let digits = id.drop_first();
    &&& id.len() > 1
    &&& id[0] == prefix
    &&& digits[0] != '+'
    &&& (digits.len() == 1 || digits[0] != '0')
    &&& match parse_uint(codes(digits), 10, 255) {
        Some(n) => n <= max,
        None => false,
    }
}

/// The position of the first id in `m` that is not valid.
pub open spec fn first_bad_id<T>(m: Seq<(String, T)>, prefix: char, max: nat) -> Option<int>
    decreases m.len(),
{
    if m.len() == 0 {
        None
    } else {
        match first_bad_id(m.drop_last(), prefix, max) {
            Some(i) => Some(i),
            None => if valid_id(m.last().0@, prefix, max) {
                None
            } else {
                Some(m.len() - 1)
            },
        }
    }
}

/// The position of the first key index beyond 11.
pub open spec fn first_bad_key(keys: Seq<(u8, Key)>) -> Option<int>
    decreases keys.len(),
{
    if keys.len() == 0 {
        None
    } else {
        match first_bad_key(keys.drop_last()) {
            Some(i) => Some(i),
            None => if keys.last().0 > 11 {
                Some(keys.len() - 1)
            } else {
                None
            },
        }
    }
}

/// `s` followed by the action in `o`, if any.
pub open spec fn push_opt(s: Seq<Action>, o: Option<Action>) -> Seq<Action> {
    match o {
        Some(a) => s.push(a),
        None => s,
    }
}

/// `base` followed by the keys' actions: each key's press, then its long
/// press.
pub open spec fn key_actions(base: Seq<Action>, keys: Seq<(u8, Key)>) -> Seq<Action>
    decreases keys.len(),
{
    if keys.len() == 0 {
        base
    } else {
        let k = keys.last().1;
        push_opt(push_opt(key_actions(base, keys.drop_last()), k.press), k.long_press)
    }
}

/// `base` followed by the encoders' actions: each encoder's press, then its
/// clockwise and counter-clockwise turns.
pub open spec fn encoder_actions(base: Seq<Action>, m: Seq<(String, Encoder)>) -> Seq<Action>
    decreases m.len(),
{
    if m.len() == 0 {
        base
    } else {
        let e = m.last().1;
        push_opt(
            push_opt(push_opt(encoder_actions(base, m.drop_last()), e.press), e.turn_cw),
            e.turn_ccw,
        )
    }
}

/// `base` followed by each LED's press.
pub open spec fn led_actions(base: Seq<Action>, m: Seq<(String, Led)>) -> Seq<Action>
    decreases m.len(),
{
    if m.len() == 0 {
        base
    } else {
        push_opt(led_actions(base, m.drop_last()), m.last().1.press)
    }
}

/// All actions defined on a page: keys, then encoders, then LEDs.
pub open spec fn page_actions(p: Page) -> Seq<Action> {
    led_actions(encoder_actions(key_actions(Seq::empty(), p.keys@), p.encoders@), p.leds@)
}

/// Whether `a` switches to a page that does not exist.
pub open spec fn targets_missing(a: Action, pages: Seq<(String, Page)>) -> bool {
    match a {
        Action::Page { page } => !has_page(pages, page@),
        _ => false,
    }
}

/// The position of the first action that targets a missing page.
pub open spec fn first_missing_target(acts: Seq<Action>, pages: Seq<(String, Page)>) -> Option<int>
    decreases acts.len(),
{
    if acts.len() == 0 {
        None
    } else {
        match first_missing_target(acts.drop_last(), pages) {
            Some(i) => Some(i),
            None => if targets_missing(acts.last(), pages) {
                Some(acts.len() - 1)
            } else {
                None
            },
        }
    }
}

/// What is wrong with page `name`, checked in order: key indices, encoder
/// ids, LED ids, then page actions.
#[verifier::opaque]
pub open spec fn page_error(name: String, p: Page, pages: Seq<(String, Page)>) -> Option<ConfigError> {
    match first_bad_key(p.keys@) {
        Some(i) => Some(ConfigError::KeyOutOfRange { page: name, index: p.keys@[i].0 }),
        None => match first_bad_id(p.encoders@, 'e', 5) {
            Some(i) => Some(
                ConfigError::InvalidId {
                    page: name,
                    kind: IdKind::Encoder,
                    id: p.encoders@[i].0,
                    prefix: 'e',
                    max: 5,
                },
            ),
            None => match first_bad_id(p.leds@, 'b', 7) {
                Some(i) => Some(
                    ConfigError::InvalidId {
                        page: name,
                        kind: IdKind::Led,
                        id: p.leds@[i].0,
                        prefix: 'b',
                        max: 7,
                    },
                ),
                None => match first_missing_target(page_actions(p), pages) {
                    Some(i) => Some(
                        ConfigError::UndefinedPage {
                            page: name,
                            target: page_actions(p)[i]->Page_page,
                        },
                    ),
                    None => None,
                },
            },
        },
    }
}

/// The first page error, pages taken in order.
pub open spec fn first_page_error(ps: Seq<(String, Page)>, pages: Seq<(String, Page)>) -> Option<
    ConfigError,
>
    decreases ps.len(),
{
    if ps.len() == 0 {
        None
    } else {
        match first_page_error(ps.drop_last(), pages) {
            Some(e) => Some(e),
            None => page_error(ps.last().0, ps.last().1, pages),
        }
    }
}

/// A profile is accepted when its brightness is within 0.0..=1.0, its home
/// page exists, and no page has an error.
pub open spec fn spec_validate(p: Profile) -> Option<ConfigError> {
    if !f32_in_unit_interval(p.brightness) {
        Some(ConfigError::Brightness(p.brightness))
    } else if !has_page(p.pages@, p.home@) {
        Some(ConfigError::UndefinedHome(p.home))
    } else {
        first_page_error(p.pages@, p.pages@)
    }
}

proof fn lemma_page_errors_not_brightness(ps: Seq<(String, Page)>, pages: Seq<(String, Page)>)
    ensures
        first_page_error(ps, pages) matches Some(e) ==> !(e is Brightness),
    decreases ps.len(),
{
    if ps.len() > 0 {
        lemma_page_errors_not_brightness(ps.drop_last(), pages);
        reveal(page_error);
    }
}

/// The brightness is checked first, by its `f32` bit pattern: +0.0 through
/// 1.0 (patterns up to 0x3F80_0000) and -0.0 (0x8000_0000) are accepted
/// whatever else the profile holds; any other pattern (above 1.0, infinite,
/// NaN or negative) is the error reported, with that pattern.
pub proof fn lemma_brightness_checked_first(p: Profile)
    ensures
        p.brightness <= 0x3F80_0000 || p.brightness == 0x8000_0000 ==> (spec_validate(p) matches Some(
            e,
        ) ==> !(e is Brightness)),
        0x3F80_0000 < p.brightness && p.brightness != 0x8000_0000 ==> spec_validate(p) == Some(
            ConfigError::Brightness(p.brightness),
        ),
{
    if p.brightness <= 0x3F80_0000 || p.brightness == 0x8000_0000 {
        if has_page(p.pages@, p.home@) {
            lemma_page_errors_not_brightness(p.pages@, p.pages@);
        }
    }
}

// ---------------------------------------------------------------------------
// Validation
// ---------------------------------------------------------------------------

/// The position of the page named `name`, if there is one.
pub fn find_page(pages: &Vec<(String, Page)>, name: &String) -> (r: Option<usize>)
    ensures
        match r {
            Some(i) => i < pages@.len() && pages@[i as int].0@ == name@ && forall|k: int|
                0 <= k < i ==> pages@[k].0@ != name@,
            None => !has_page(pages@, name@),
        },
{
    let mut i: usize = 0;
    while i < pages.len()
        invariant
            i <= pages@.len(),
            forall|k: int| 0 <= k < i ==> pages@[k].0@ != name@,
        decreases pages@.len() - i,
    {
        if pages[i].0 == *name {
            return Some(i);
        }
        i = i + 1;
    }
    assert(!has_page(pages@, name@)) by {
        if has_page(pages@, name@) {
            let k = choose|k: int| 0 <= k < pages@.len() && (#[trigger] pages@[k]).0@ == name@;
            assert(pages@[k].0@ != name@);
        }
    }
    None
}

/// Whether `id` is `prefix` followed by a number of at most `max`.
pub fn is_valid_id(id: &String, prefix: char, max: u8) -> (r: bool)
    ensures
        r == valid_id(id@, prefix, max as nat),
{
    let cs = chars_of(id.as_str());
    if cs.len() < 2 || cs[0] != prefix || cs[1] == '+' || (cs.len() > 2 && cs[1] == '0') {
        return false;
    }
    let mut rest: Vec<char> = Vec::new();
    let mut i: usize = 1;
    while i < cs.len()
        invariant
            1 <= i <= cs@.len(),
            rest@ == cs@.subrange(1, i as int),
        decreases cs@.len() - i,
    {
        rest.push(cs[i]);
        assert(cs@.subrange(1, i + 1) =~= cs@.subrange(1, i as int).push(cs@[i as int]));
        i = i + 1;
    }
    assert(rest@ =~= cs@.drop_first());
    let c = codes_of(rest.as_slice());
    match parse_unsigned(c.as_slice(), 10, 255) {
        Some(n) => n <= max as u64,
        None => false,
    }
}

/// Check `eN` / `bN`-style ids against their max index.
pub fn check_ids<T>(page: &String, kind: IdKind, ids: &Vec<(String, T)>, prefix: char, max: u8) -> (r:
    Result<(), ConfigError>)
    ensures
        match first_bad_id(ids@, prefix, max as nat) {
            Some(i) => r matches Err(ConfigError::InvalidId { page: p, kind: k, id, prefix: pf, max: m })
                && p == *page && k == kind && id == ids@[i].0 && pf == prefix && m == max,
            None => r is Ok,
        },
{
    let mut i: usize = 0;
    while i < ids.len()
        invariant
            i <= ids@.len(),
            first_bad_id(ids@.subrange(0, i as int), prefix, max as nat) is None,
        decreases ids@.len() - i,
    {
        assert(ids@.subrange(0, i + 1).drop_last() =~= ids@.subrange(0, i as int));
        if !is_valid_id(&ids[i].0, prefix, max) {
            proof {
                lemma_first_bad_id_prefix(ids@, prefix, max as nat, i + 1);
            }
            return Err(
                ConfigError::InvalidId {
                    page: page.clone(),
                    kind,
                    id: ids[i].0.clone(),
                    prefix,
                    max,
                },
            );
        }
        i = i + 1;
    }
    assert(ids@.subrange(0, ids@.len() as int) =~= ids@);
    Ok(())
}

/// Once a prefix has a bad id, the whole list has it at the same place.
proof fn lemma_first_bad_id_prefix<T>(m: Seq<(String, T)>, prefix: char, max: nat, k: int)
    requires
        0 <= k <= m.len(),
        first_bad_id(m.subrange(0, k), prefix, max) is Some,
    ensures
        first_bad_id(m, prefix, max) == first_bad_id(m.subrange(0, k), prefix, max),
    decreases m.len() - k,
{
    if k < m.len() {
        assert(m.subrange(0, k + 1).drop_last() =~= m.subrange(0, k));
        lemma_first_bad_id_prefix(m, prefix, max, k + 1);
    } else {
        assert(m.subrange(0, k) =~= m);
    }
}

proof fn lemma_first_bad_key_prefix(m: Seq<(u8, Key)>, k: int)
    requires
        0 <= k <= m.len(),
        first_bad_key(m.subrange(0, k)) is Some,
    ensures
        first_bad_key(m) == first_bad_key(m.subrange(0, k)),
    decreases m.len() - k,
{
    if k < m.len() {
        assert(m.subrange(0, k + 1).drop_last() =~= m.subrange(0, k));
        lemma_first_bad_key_prefix(m, k + 1);
    } else {
        assert(m.subrange(0, k) =~= m);
    }
}

/// Once a prefix of actions has a missing target, any extension has it at
/// the same place.
proof fn lemma_missing_target_extends(a: Seq<Action>, b: Seq<Action>, pages: Seq<(String, Page)>)
    requires
        first_missing_target(a, pages) is Some,
    ensures
        first_missing_target(a + b, pages) == first_missing_target(a, pages),
    decreases b.len(),
{
    if b.len() == 0 {
        assert(a + b =~= a);
    } else {
        lemma_missing_target_extends(a, b.drop_last(), pages);
        assert((a + b).drop_last() =~= a + b.drop_last());
    }
}

/// Whether `a` is a prefix of `b`.
pub open spec fn is_prefix(a: Seq<Action>, b: Seq<Action>) -> bool {
    a.len() <= b.len() && b.subrange(0, a.len() as int) == a
}

proof fn lemma_prefix_trans(a: Seq<Action>, b: Seq<Action>, c: Seq<Action>)
    requires
        is_prefix(a, b),
        is_prefix(b, c),
    ensures
        is_prefix(a, c),
{
    assert(c.subrange(0, a.len() as int) =~= b.subrange(0, a.len() as int));
}

proof fn lemma_push_opt_prefix(s: Seq<Action>, o: Option<Action>)
    ensures
        is_prefix(s, push_opt(s, o)),
{
    assert(push_opt(s, o).subrange(0, s.len() as int) =~= s);
}

proof fn lemma_key_actions_prefix(base: Seq<Action>, keys: Seq<(u8, Key)>, i: int)
    requires
        0 <= i <= keys.len(),
    ensures
        is_prefix(key_actions(base, keys.subrange(0, i)), key_actions(base, keys)),
    decreases keys.len() - i,
{
    if i < keys.len() {
        lemma_key_actions_prefix(base, keys, i + 1);
        let s = keys.subrange(0, i + 1);
        assert(s.drop_last() =~= keys.subrange(0, i));
        let k = s.last().1;
        let a = key_actions(base, keys.subrange(0, i));
        lemma_push_opt_prefix(a, k.press);
        lemma_push_opt_prefix(push_opt(a, k.press), k.long_press);
        lemma_prefix_trans(a, push_opt(a, k.press), push_opt(push_opt(a, k.press), k.long_press));
        lemma_prefix_trans(a, key_actions(base, s), key_actions(base, keys));
    } else {
        assert(keys.subrange(0, i) =~= keys);
        assert(key_actions(base, keys).subrange(0, key_actions(base, keys).len() as int)
            =~= key_actions(base, keys));
    }
}

proof fn lemma_encoder_actions_prefix(base: Seq<Action>, m: Seq<(String, Encoder)>, i: int)
    requires
        0 <= i <= m.len(),
    ensures
        is_prefix(encoder_actions(base, m.subrange(0, i)), encoder_actions(base, m)),
    decreases m.len() - i,
{
    if i < m.len() {
        lemma_encoder_actions_prefix(base, m, i + 1);
        let s = m.subrange(0, i + 1);
        assert(s.drop_last() =~= m.subrange(0, i));
        let e = s.last().1;
        let a = encoder_actions(base, m.subrange(0, i));
        let a1 = push_opt(a, e.press);
        let a2 = push_opt(a1, e.turn_cw);
        lemma_push_opt_prefix(a, e.press);
        lemma_push_opt_prefix(a1, e.turn_cw);
        lemma_push_opt_prefix(a2, e.turn_ccw);
        lemma_prefix_trans(a, a1, a2);
        lemma_prefix_trans(a, a2, push_opt(a2, e.turn_ccw));
        lemma_prefix_trans(a, encoder_actions(base, s), encoder_actions(base, m));
    } else {
        assert(m.subrange(0, i) =~= m);
        assert(encoder_actions(base, m).subrange(0, encoder_actions(base, m).len() as int)
            =~= encoder_actions(base, m));
    }
}

proof fn lemma_led_actions_prefix(base: Seq<Action>, m: Seq<(String, Led)>, i: int)
    requires
        0 <= i <= m.len(),
    ensures
        is_prefix(led_actions(base, m.subrange(0, i)), led_actions(base, m)),
    decreases m.len() - i,
{
    if i < m.len() {
        lemma_led_actions_prefix(base, m, i + 1);
        let s = m.subrange(0, i + 1);
        assert(s.drop_last() =~= m.subrange(0, i));
        let a = led_actions(base, m.subrange(0, i));
        lemma_push_opt_prefix(a, s.last().1.press);
        lemma_prefix_trans(a, led_actions(base, s), led_actions(base, m));
    } else {
        assert(m.subrange(0, i) =~= m);
        assert(led_actions(base, m).subrange(0, led_actions(base, m).len() as int) =~= led_actions(
            base,
            m,
        ));
    }
}

/// Every stage of the walk over a page's actions is a prefix of them.
proof fn lemma_walk_prefix(p: Page, stage: int, i: int)
    requires
        stage == 0 ==> 0 <= i <= p.keys@.len(),
        stage == 1 ==> 0 <= i <= p.encoders@.len(),
        stage == 2 ==> 0 <= i <= p.leds@.len(),
    ensures
        stage == 0 ==> is_prefix(key_actions(Seq::empty(), p.keys@.subrange(0, i)), page_actions(p)),
        stage == 1 ==> is_prefix(
            encoder_actions(key_actions(Seq::empty(), p.keys@), p.encoders@.subrange(0, i)),
            page_actions(p),
        ),
        stage == 2 ==> is_prefix(
            led_actions(
                encoder_actions(key_actions(Seq::empty(), p.keys@), p.encoders@),
                p.leds@.subrange(0, i),
            ),
            page_actions(p),
        ),
{
    let ka = key_actions(Seq::empty(), p.keys@);
    let ea = encoder_actions(ka, p.encoders@);
    let la = led_actions(ea, p.leds@);
    lemma_led_actions_prefix(ea, p.leds@, 0);
    assert(p.leds@.subrange(0, 0) =~= Seq::<(String, Led)>::empty());
    lemma_encoder_actions_prefix(ka, p.encoders@, 0);
    assert(p.encoders@.subrange(0, 0) =~= Seq::<(String, Encoder)>::empty());
    lemma_prefix_trans(ka, ea, la);
    if stage == 0 {
        lemma_key_actions_prefix(Seq::empty(), p.keys@, i);
        lemma_prefix_trans(key_actions(Seq::empty(), p.keys@.subrange(0, i)), ka, la);
    } else if stage == 1 {
        lemma_encoder_actions_prefix(ka, p.encoders@, i);
        lemma_prefix_trans(encoder_actions(ka, p.encoders@.subrange(0, i)), ea, la);
    } else if stage == 2 {
        lemma_led_actions_prefix(ea, p.leds@, i);
    }
}

/// A missing target found in a prefix of a list of actions is the list's
/// first missing target.
proof fn lemma_missing_in_prefix(a: Seq<Action>, b: Seq<Action>, pages: Seq<(String, Page)>)
    requires
        first_missing_target(a, pages) is Some,
        is_prefix(a, b),
    ensures
        first_missing_target(b, pages) == first_missing_target(a, pages),
{
    let rest = b.subrange(a.len() as int, b.len() as int);
    assert(b =~= a + rest);
    lemma_missing_target_extends(a, rest, pages);
}

/// The walk over a page's actions: how far it got without finding a
/// missing target, or the missing target it found.
enum Walk {
    Clear,
    Missing(String),
}

/// The actions list `acts` extended by one optional action, checked.
fn check_action(o: &Option<Action>, pages: &Vec<(String, Page)>, Ghost(acts): Ghost<Seq<Action>>) -> (r:
    Walk)
    requires
        first_missing_target(acts, pages@) is None,
    ensures
        match r {
            Walk::Clear => first_missing_target(push_opt(acts, *o), pages@) is None,
            Walk::Missing(t) => first_missing_target(push_opt(acts, *o), pages@) == Some(
                acts.len() as int,
            ) && push_opt(acts, *o)[acts.len() as int]->Page_page == t,
        },
{
    match o {
        Some(Action::Page { page }) => {
            match find_page(pages, page) {
                Some(_) => {
                    assert(acts.push(o->0).drop_last() =~= acts);
                    Walk::Clear
                },
                None => {
                    assert(acts.push(o->0).drop_last() =~= acts);
                    Walk::Missing(page.clone())
                },
            }
        },
        Some(_) => {
            assert(acts.push(o->0).drop_last() =~= acts);
            Walk::Clear
        },
        None => Walk::Clear,
    }
}

/// The target of the first action on page `p` that switches to a missing
/// page, if any.
fn first_missing(p: &Page, pages: &Vec<(String, Page)>) -> (r: Option<String>)
    ensures
        match first_missing_target(page_actions(*p), pages@) {
            Some(i) => r == Some(page_actions(*p)[i]->Page_page),
            None => r is None,
        },
{
    let ghost mut acts: Seq<Action> = Seq::empty();
    let mut i: usize = 0;
    while i < p.keys.len()
        invariant
            i <= p.keys@.len(),
            acts == key_actions(Seq::empty(), p.keys@.subrange(0, i as int)),
            first_missing_target(acts, pages@) is None,
        decreases p.keys@.len() - i,
    {
        assert(p.keys@.subrange(0, i + 1).drop_last() =~= p.keys@.subrange(0, i as int));
        let k = &p.keys[i].1;
        match check_action(&k.press, pages, Ghost(acts)) {
            Walk::Missing(t) => {
                proof {
                    let x = push_opt(acts, k.press);
                    let y = key_actions(Seq::empty(), p.keys@.subrange(0, i + 1));
                    lemma_push_opt_prefix(x, k.long_press);
                    lemma_walk_prefix(*p, 0, i + 1);
                    lemma_prefix_trans(x, y, page_actions(*p));
                    lemma_missing_in_prefix(x, page_actions(*p), pages@);
                }
                return Some(t);
            },
            Walk::Clear => {},
        }
        proof {
            acts = push_opt(acts, k.press);
        }
        match check_action(&k.long_press, pages, Ghost(acts)) {
            Walk::Missing(t) => {
                proof {
                    let x = push_opt(acts, k.long_press);
                    lemma_walk_prefix(*p, 0, i + 1);
                    lemma_missing_in_prefix(x, page_actions(*p), pages@);
                }
                return Some(t);
            },
            Walk::Clear => {},
        }
        proof {
            acts = push_opt(acts, k.long_press);
        }
        i = i + 1;
    }
    assert(p.keys@.subrange(0, p.keys@.len() as int) =~= p.keys@);
    let ghost key_acts = acts;
    let mut i: usize = 0;
    while i < p.encoders.len()
        invariant
            i <= p.encoders@.len(),
            key_acts == key_actions(Seq::empty(), p.keys@),
            acts == encoder_actions(key_acts, p.encoders@.subrange(0, i as int)),
            first_missing_target(acts, pages@) is None,
        decreases p.encoders@.len() - i,
    {
        assert(p.encoders@.subrange(0, i + 1).drop_last() =~= p.encoders@.subrange(0, i as int));
        let e = &p.encoders[i].1;
        match check_action(&e.press, pages, Ghost(acts)) {
            Walk::Missing(t) => {
                proof {
                    let x = push_opt(acts, e.press);
                    let x2 = push_opt(x, e.turn_cw);
                    let y = encoder_actions(key_acts, p.encoders@.subrange(0, i + 1));
                    lemma_push_opt_prefix(x, e.turn_cw);
                    lemma_push_opt_prefix(x2, e.turn_ccw);
                    lemma_prefix_trans(x, x2, y);
                    lemma_walk_prefix(*p, 1, i + 1);
                    lemma_prefix_trans(x, y, page_actions(*p));
                    lemma_missing_in_prefix(x, page_actions(*p), pages@);
                }
                return Some(t);
            },
            Walk::Clear => {},
        }
        proof {
            acts = push_opt(acts, e.press);
        }
        match check_action(&e.turn_cw, pages, Ghost(acts)) {
            Walk::Missing(t) => {
                proof {
                    let x = push_opt(acts, e.turn_cw);
                    let y = encoder_actions(key_acts, p.encoders@.subrange(0, i + 1));
                    lemma_push_opt_prefix(x, e.turn_ccw);
                    lemma_walk_prefix(*p, 1, i + 1);
                    lemma_prefix_trans(x, y, page_actions(*p));
                    lemma_missing_in_prefix(x, page_actions(*p), pages@);
                }
                return Some(t);
            },
            Walk::Clear => {},
        }
        proof {
            acts = push_opt(acts, e.turn_cw);
        }
        match check_action(&e.turn_ccw, pages, Ghost(acts)) {
            Walk::Missing(t) => {
                proof {
                    let x = push_opt(acts, e.turn_ccw);
                    lemma_walk_prefix(*p, 1, i + 1);
                    lemma_missing_in_prefix(x, page_actions(*p), pages@);
                }
                return Some(t);
            },
            Walk::Clear => {},
        }
        proof {
            acts = push_opt(acts, e.turn_ccw);
        }
        i = i + 1;
    }
    assert(p.encoders@.subrange(0, p.encoders@.len() as int) =~= p.encoders@);
    let ghost enc_acts = acts;
    let mut i: usize = 0;
    while i < p.leds.len()
        invariant
            i <= p.leds@.len(),
            enc_acts == encoder_actions(key_actions(Seq::empty(), p.keys@), p.encoders@),
            acts == led_actions(enc_acts, p.leds@.subrange(0, i as int)),
            first_missing_target(acts, pages@) is None,
        decreases p.leds@.len() - i,
    {
        assert(p.leds@.subrange(0, i + 1).drop_last() =~= p.leds@.subrange(0, i as int));
        let l = &p.leds[i].1;
        match check_action(&l.press, pages, Ghost(acts)) {
            Walk::Missing(t) => {
                proof {
                    let x = push_opt(acts, l.press);
                    lemma_walk_prefix(*p, 2, i + 1);
                    lemma_missing_in_prefix(x, page_actions(*p), pages@);
                }
                return Some(t);
            },
            Walk::Clear => {},
        }
        proof {
            acts = push_opt(acts, l.press);
        }
        i = i + 1;
    }
    assert(p.leds@.subrange(0, p.leds@.len() as int) =~= p.leds@);
    None
}

/// Check the key indices of a page.
fn check_keys(page: &String, keys: &Vec<(u8, Key)>) -> (r: Result<(), ConfigError>)
    ensures
        match first_bad_key(keys@) {
            Some(i) => r matches Err(ConfigError::KeyOutOfRange { page: p, index }) && p == *page
                && index == keys@[i].0,
            None => r is Ok,
        },
{
    let mut i: usize = 0;
    while i < keys.len()
        invariant
            i <= keys@.len(),
            first_bad_key(keys@.subrange(0, i as int)) is None,
        decreases keys@.len() - i,
    {
        assert(keys@.subrange(0, i + 1).drop_last() =~= keys@.subrange(0, i as int));
        if keys[i].0 > 11 {
            proof {
                lemma_first_bad_key_prefix(keys@, i + 1);
            }
            return Err(ConfigError::KeyOutOfRange { page: page.clone(), index: keys[i].0 });
        }
        i = i + 1;
    }
    assert(keys@.subrange(0, keys@.len() as int) =~= keys@);
    Ok(())
}

/// Whether two errors are the same, for specs.
pub open spec fn same_error(r: Result<(), ConfigError>, e: Option<ConfigError>) -> bool {
    match e {
        None => r is Ok,
        Some(e) => r == Err::<(), ConfigError>(e),
    }
}

/// Check one page: key bounds, encoder and LED ids, then page actions.
fn check_page(name: &String, page: &Page, pages: &Vec<(String, Page)>) -> (r: Result<(), ConfigError>)
    ensures
        same_error(r, page_error(*name, *page, pages@)),
{
    reveal(page_error);
    check_keys(name, &page.keys)?;
    check_ids(name, IdKind::Encoder, &page.encoders, 'e', 5)?;
    check_ids(name, IdKind::Led, &page.leds, 'b', 7)?;
    match first_missing(page, pages) {
        Some(target) => Err(ConfigError::UndefinedPage { page: name.clone(), target }),
        None => Ok(()),
    }
}

proof fn lemma_first_page_error_prefix(ps: Seq<(String, Page)>, pages: Seq<(String, Page)>, k: int)
    requires
        0 <= k <= ps.len(),
        first_page_error(ps.subrange(0, k), pages) is Some,
    ensures
        first_page_error(ps, pages) == first_page_error(ps.subrange(0, k), pages),
    decreases ps.len() - k,
{
    if k < ps.len() {
        assert(ps.subrange(0, k + 1).drop_last() =~= ps.subrange(0, k));
        lemma_first_page_error_prefix(ps, pages, k + 1);
    } else {
        assert(ps.subrange(0, k) =~= ps);
    }
}

impl Profile {
    /// Check the hardware bounds and cross-references that the file format
    /// cannot express: brightness within 0.0..=1.0, a defined home page, key
    /// indices 0..=11, encoder ids `e0..=e5`, LED ids `b0..=b7`, and page
    /// actions that name defined pages. Reports the first problem.
    pub fn validate(&self) -> (r: Result<(), ConfigError>)
        ensures
            same_error(r, spec_validate(*self)),
    {
        let b = self.brightness;
        if !(b <= 0x3F80_0000 || b == 0x8000_0000) {
            return Err(ConfigError::Brightness(b));
        }
        if find_page(&self.pages, &self.home).is_none() {
            return Err(ConfigError::UndefinedHome(self.home.clone()));
        }
        let mut i: usize = 0;
        while i < self.pages.len()
            invariant
                i <= self.pages@.len(),
                f32_in_unit_interval(self.brightness),
                has_page(self.pages@, self.home@),
                first_page_error(self.pages@.subrange(0, i as int), self.pages@) is None,
            decreases self.pages@.len() - i,
        {
            assert(self.pages@.subrange(0, i + 1).drop_last() =~= self.pages@.subrange(0, i as int));
            let entry = &self.pages[i];
            match check_page(&entry.0, &entry.1, &self.pages) {
                Err(e) => {
                    proof {
                        let ps = self.pages@.subrange(0, i + 1);
                        assert(ps.last() == self.pages@[i as int]);
                        assert(*entry == self.pages@[i as int]);
                        assert(page_error(entry.0, entry.1, self.pages@) == Some(e));
                        assert(first_page_error(ps, self.pages@) == Some(e));
                        lemma_first_page_error_prefix(self.pages@, self.pages@, i + 1);
                    }
                    return Err(e);
                },
                Ok(()) => {},
            }
            i = i + 1;
        }
        assert(self.pages@.subrange(0, self.pages@.len() as int) =~= self.pages@);
        Ok(())
    }
}

// ---------------------------------------------------------------------------
// Messages
// ---------------------------------------------------------------------------

/// The text of an id kind.
pub open spec fn kind_text(k: IdKind) -> Seq<char> {
    match k {
        IdKind::Encoder => "encoder"@,
        IdKind::Led => "led"@,
    }
}

/// What a rejection says. The brightness message omits the offending value,
/// which only a float formatter can print.
pub open spec fn spec_message(e: ConfigError) -> Seq<char> {
    match e {
        ConfigError::Brightness(_) => "brightness must be 0.0..=1.0"@,
        ConfigError::UndefinedHome(home) => "home page `"@ + home@ + "` is not defined"@,
        ConfigError::KeyOutOfRange { page, index } => "page `"@ + page@ + "`: key "@ + decimal(
            index as nat,
        ) + " out of range (0..=11)"@,
        ConfigError::InvalidId { page, kind, id, prefix, max } => "page `"@ + page@ + "`: invalid "@
            + kind_text(kind) + " id `"@ + id@ + "` (expected "@ + seq![prefix] + "0..="@ + seq![
            prefix,
        ] + decimal(max as nat) + ")"@,
        ConfigError::UndefinedPage { page, target } => "page `"@ + page@
            + "`: action targets undefined page `"@ + target@ + "`"@,
    }
}

impl ConfigError {
    /// A sentence that says what is wrong.
    pub fn message(&self) -> (r: String)
        ensures
            r@ == spec_message(*self),
    {
        let mut s = String::new();
        match self {
            ConfigError::Brightness(_) => {
                s.append("brightness must be 0.0..=1.0");
            },
            ConfigError::UndefinedHome(home) => {
                s.append("home page `");
                s.append(home.as_str());
                s.append("` is not defined");
            },
            ConfigError::KeyOutOfRange { page, index } => {
                s.append("page `");
                s.append(page.as_str());
                s.append("`: key ");
                push_decimal(&mut s, *index as u64);
                s.append(" out of range (0..=11)");
            },
            ConfigError::InvalidId { page, kind, id, prefix, max } => {
                s.append("page `");
                s.append(page.as_str());
                s.append("`: invalid ");
                match kind {
                    IdKind::Encoder => s.append("encoder"),
                    IdKind::Led => s.append("led"),
                }
                s.append(" id `");
                s.append(id.as_str());
                s.append("` (expected ");
                push_char(&mut s, *prefix);
                s.append("0..=");
                push_char(&mut s, *prefix);
                push_decimal(&mut s, *max as u64);
                s.append(")");
            },
            ConfigError::UndefinedPage { page, target } => {
                s.append("page `");
                s.append(page.as_str());
                s.append("`: action targets undefined page `");
                s.append(target.as_str());
                s.append("`");
            },
        }
        assert(s@ =~= spec_message(*self));
        s
    }
}

proof fn lemma_char_code(c: char)
    ensures
        c != '+' ==> (c as u32) != 0x2B,
        !('0' <= c <= '9') ==> ((c as u32) < 0x30 || (c as u32) > 0x39),
{
}

proof fn lemma_decimal_lead(n: nat)
    ensures
        decimal(n).len() >= 1,
        n >= 10 ==> decimal(n).len() > 1 && decimal(n)[0] != '0',
        n < 10 ==> decimal(n).len() == 1,
    decreases n,
{
    if n >= 10 {
        lemma_decimal_lead(n / 10);
        assert(decimal(n)[0] == decimal(n / 10)[0]);
    }
}

/// The ids a profile may use are exactly the prefix followed by the plain
/// decimal numeral of a number up to the maximum (`e0`..`e5`, `b0`..`b7`):
/// a larger number, another first letter, a leading zero, a sign or any
/// other non-digit, or no number at all is refused.
pub proof fn lemma_valid_ids(prefix: char, max: nat, n: nat, c: char, d: Seq<char>)
    requires
        max <= 255,
    ensures
        n <= max ==> valid_id(seq![prefix] + decimal(n), prefix, max),
        n > max ==> !valid_id(seq![prefix] + decimal(n), prefix, max),
        c != prefix ==> !valid_id(seq![c] + d, prefix, max),
        d.len() > 1 && d[0] == '0' ==> !valid_id(seq![prefix] + d, prefix, max),
        (exists|i: int| 0 <= i < d.len() && !('0' <= #[trigger] d[i] <= '9')) ==> !valid_id(
            seq![prefix] + d,
            prefix,
            max,
        ),
        !valid_id(seq![prefix], prefix, max),
{
    lemma_decimal_numeral(n);
    lemma_numeral_digits(n, 10);
    lemma_decimal_lead(n);
    let id = seq![prefix] + decimal(n);
    assert(id.drop_first() =~= decimal(n));
    assert(codes(decimal(n))[0] != 0x2B) by {
        assert(digit_value(codes(decimal(n))[0], 10) is Some);
    }
    if n <= 255 {
        lemma_numeral_parses(n, 10, 255);
    } else {
        assert(digits_nat(codes(decimal(n)), 10) == n);
    }
    let e = seq![c] + d;
    assert(e[0] == c);
    let f = seq![prefix] + d;
    assert(f.drop_first() =~= d);
    if exists|i: int| 0 <= i < d.len() && !('0' <= #[trigger] d[i] <= '9') {
        let i = choose|i: int| 0 <= i < d.len() && !('0' <= #[trigger] d[i] <= '9');
        if d[0] != '+' {
            lemma_char_code(d[0]);
            lemma_char_code(d[i]);
            assert(codes(d)[0] == d[0] as u32);
            assert(codes(d)[0] != 0x2B);
            assert(codes(d)[i] == d[i] as u32);
            assert(digit_value(codes(d)[i], 10) is None);
            assert(!all_digits(codes(d), 10));
        }
    }
    assert(seq![prefix].len() == 1);
}

proof fn lemma_no_bad_key(keys: Seq<(u8, Key)>)
    ensures
        first_bad_key(keys) is None <==> forall|i: int| 0 <= i < keys.len() ==> (#[trigger] keys[i]).0 <= 11,
    decreases keys.len(),
{
    if keys.len() > 0 {
        lemma_no_bad_key(keys.drop_last());
        assert forall|i: int| 0 <= i < keys.len() - 1 implies keys.drop_last()[i] == keys[i] by {}
        if first_bad_key(keys.drop_last()) is Some {
            let w = choose|i: int| 0 <= i < keys.len() - 1 && !((#[trigger] keys.drop_last()[i]).0 <= 11);
            assert(keys[w] == keys.drop_last()[w]);
        }
    }
}

proof fn lemma_no_bad_id<T>(m: Seq<(String, T)>, prefix: char, max: nat)
    ensures
        first_bad_id(m, prefix, max) is None <==> forall|i: int|
            0 <= i < m.len() ==> valid_id((#[trigger] m[i]).0@, prefix, max),
    decreases m.len(),
{
    if m.len() > 0 {
        lemma_no_bad_id(m.drop_last(), prefix, max);
        assert forall|i: int| 0 <= i < m.len() - 1 implies m.drop_last()[i] == m[i] by {}
        if first_bad_id(m.drop_last(), prefix, max) is Some {
            let w = choose|i: int|
                0 <= i < m.len() - 1 && !valid_id((#[trigger] m.drop_last()[i]).0@, prefix, max);
            assert(m[w] == m.drop_last()[w]);
        }
    }
}

proof fn lemma_no_missing(acts: Seq<Action>, pages: Seq<(String, Page)>)
    ensures
        first_missing_target(acts, pages) is None <==> forall|i: int|
            0 <= i < acts.len() ==> !targets_missing(#[trigger] acts[i], pages),
    decreases acts.len(),
{
    if acts.len() > 0 {
        lemma_no_missing(acts.drop_last(), pages);
        assert forall|i: int| 0 <= i < acts.len() - 1 implies acts.drop_last()[i] == acts[i] by {}
        if first_missing_target(acts.drop_last(), pages) is Some {
            let w = choose|i: int|
                0 <= i < acts.len() - 1 && targets_missing(#[trigger] acts.drop_last()[i], pages);
            assert(acts[w] == acts.drop_last()[w]);
        }
    }
}

/// A page has no error when its key indices are at most 11, its encoder ids
/// are `e0`..`e5`, its LED ids `b0`..`b7`, and every page switch it holds
/// names a page of the profile.
pub open spec fn page_ok(p: Page, pages: Seq<(String, Page)>) -> bool {
    &&& forall|i: int| 0 <= i < p.keys@.len() ==> (#[trigger] p.keys@[i]).0 <= 11
    &&& forall|i: int| 0 <= i < p.encoders@.len() ==> valid_id((#[trigger] p.encoders@[i]).0@, 'e', 5)
    &&& forall|i: int| 0 <= i < p.leds@.len() ==> valid_id((#[trigger] p.leds@[i]).0@, 'b', 7)
    &&& forall|i: int|
        0 <= i < page_actions(p).len() ==> (#[trigger] page_actions(p)[i] matches Action::Page { page }
            ==> has_page(pages, page@))
}

proof fn lemma_page_error_none(name: String, p: Page, pages: Seq<(String, Page)>)
    ensures
        page_error(name, p, pages) is None <==> page_ok(p, pages),
{
    reveal(page_error);
    lemma_no_bad_key(p.keys@);
    lemma_no_bad_id(p.encoders@, 'e', 5);
    lemma_no_bad_id(p.leds@, 'b', 7);
    lemma_no_missing(page_actions(p), pages);
    assert(forall|i: int|
        0 <= i < page_actions(p).len() ==> (!targets_missing(#[trigger] page_actions(p)[i], pages)
            <==> (page_actions(p)[i] matches Action::Page { page } ==> has_page(pages, page@))));
}

proof fn lemma_first_page_error_none(ps: Seq<(String, Page)>, pages: Seq<(String, Page)>)
    ensures
        first_page_error(ps, pages) is None <==> forall|i: int|
            0 <= i < ps.len() ==> page_ok((#[trigger] ps[i]).1, pages),
    decreases ps.len(),
{
    if ps.len() > 0 {
        lemma_first_page_error_none(ps.drop_last(), pages);
        lemma_page_error_none(ps.last().0, ps.last().1, pages);
        assert forall|i: int| 0 <= i < ps.len() - 1 implies ps.drop_last()[i] == ps[i] by {}
        if first_page_error(ps.drop_last(), pages) is Some {
            let w = choose|i: int| 0 <= i < ps.len() - 1 && !page_ok((#[trigger] ps.drop_last()[i]).1, pages);
            assert(ps[w] == ps.drop_last()[w]);
        }
    }
}

/// A profile is accepted exactly when its brightness pattern is +0.0
/// through 1.0 or -0.0, its home page is one of its pages, and every page
/// is free of errors. The brightness is checked first and the home page
/// next.
pub proof fn lemma_validate_accepts(p: Profile)
    ensures
        spec_validate(p) is None <==> ((p.brightness <= 0x3F80_0000 || p.brightness == 0x8000_0000)
            && has_page(p.pages@, p.home@) && forall|i: int|
            0 <= i < p.pages@.len() ==> page_ok((#[trigger] p.pages@[i]).1, p.pages@)),
        (p.brightness <= 0x3F80_0000 || p.brightness == 0x8000_0000) && !has_page(p.pages@, p.home@)
            ==> spec_validate(p) == Some(ConfigError::UndefinedHome(p.home)),
{
    lemma_first_page_error_none(p.pages@, p.pages@);
}

/// The message of each rejection, word for word: it names what is wrong
/// and where.
pub proof fn lemma_messages(b: u32, page: String, target: String, index: u8, id: String)
    ensures
        spec_message(ConfigError::Brightness(b)) == "brightness must be 0.0..=1.0"@,
        spec_message(ConfigError::UndefinedHome(page)) == "home page `"@ + page@ + "` is not defined"@,
        spec_message(ConfigError::KeyOutOfRange { page, index }) == "page `"@ + page@ + "`: key "@
            + decimal(index as nat) + " out of range (0..=11)"@,
        spec_message(
            ConfigError::InvalidId { page, kind: IdKind::Encoder, id, prefix: 'e', max: 5 },
        ) == "page `"@ + page@ + "`: invalid encoder id `"@ + id@ + "` (expected e0..=e5)"@,
        spec_message(ConfigError::InvalidId { page, kind: IdKind::Led, id, prefix: 'b', max: 7 })
            == "page `"@ + page@ + "`: invalid led id `"@ + id@ + "` (expected b0..=b7)"@,
        spec_message(ConfigError::UndefinedPage { page, target }) == "page `"@ + page@
            + "`: action targets undefined page `"@ + target@ + "`"@,
{
    reveal_strlit("page `");
    reveal_strlit("`: invalid ");
    reveal_strlit("encoder");
    reveal_strlit("led");
    reveal_strlit(" id `");
    reveal_strlit("` (expected ");
    reveal_strlit("0..=");
    reveal_strlit(")");
    reveal_strlit("`: invalid encoder id `");
    reveal_strlit("` (expected e0..=e5)");
    reveal_strlit("`: invalid led id `");
    reveal_strlit("` (expected b0..=b7)");
    assert(decimal(5) == seq!['5']);
    assert(decimal(7) == seq!['7']);
    assert("page `"@ + page@ + "`: invalid "@ + "encoder"@ + " id `"@ + id@ + "` (expected "@ + seq!['e'] + "0..="@ + seq!['e'] + seq!['5'] + ")"@ =~= "page `"@ + page@ + "`: invalid encoder id `"@ + id@ + "` (expected e0..=e5)"@);
    assert("page `"@ + page@ + "`: invalid "@ + "led"@ + " id `"@ + id@ + "` (expected "@ + seq!['b'] + "0..="@ + seq!['b'] + seq!['7'] + ")"@ =~= "page `"@ + page@ + "`: invalid led id `"@ + id@ + "` (expected b0..=b7)"@);
}

/// Accepting a profile means its references resolve: the home page and
/// every page an action switches to are defined.
pub proof fn lemma_valid_profile_references(p: Profile)
    requires
        spec_validate(p) is None,
    ensures
        has_page(p.pages@, p.home@),
        f32_in_unit_interval(p.brightness),
        forall|i: int, j: int|
            0 <= i < p.pages@.len() && 0 <= j < page_actions(p.pages@[i].1).len() ==> !targets_missing(
                #[trigger] page_actions(p.pages@[i].1)[j],
                p.pages@,
            ),
{
    reveal(page_error);
    assert forall|i: int, j: int|
        0 <= i < p.pages@.len() && 0 <= j < page_actions(p.pages@[i].1).len() implies !targets_missing(
        #[trigger] page_actions(p.pages@[i].1)[j],
        p.pages@,
    ) by {
        lemma_no_page_error_at(p.pages@, p.pages@, i);
        lemma_no_missing_at(page_actions(p.pages@[i].1), p.pages@, j);
    }
}

proof fn lemma_no_page_error_at(ps: Seq<(String, Page)>, pages: Seq<(String, Page)>, i: int)
    requires
        first_page_error(ps, pages) is None,
        0 <= i < ps.len(),
    ensures
        page_error(ps[i].0, ps[i].1, pages) is None,
    decreases ps.len(),
{
    if i < ps.len() - 1 {
        lemma_no_page_error_at(ps.drop_last(), pages, i);
    }
}

proof fn lemma_no_missing_at(acts: Seq<Action>, pages: Seq<(String, Page)>, j: int)
    requires
        first_missing_target(acts, pages) is None,
        0 <= j < acts.len(),
    ensures
        !targets_missing(acts[j], pages),
    decreases acts.len(),
{
    if j < acts.len() - 1 {
        lemma_no_missing_at(acts.drop_last(), pages, j);
    }
}

/// Each input's actions appear among its page's actions.
pub proof fn lemma_page_actions_contain(p: Page)
    ensures
        forall|k: int|
            0 <= k < p.keys@.len() ==> contains_opt(page_actions(p), #[trigger] p.keys@[k].1.press)
                && contains_opt(page_actions(p), p.keys@[k].1.long_press),
        forall|k: int|
            0 <= k < p.encoders@.len() ==> contains_opt(
                page_actions(p),
                #[trigger] p.encoders@[k].1.press,
            ) && contains_opt(page_actions(p), p.encoders@[k].1.turn_cw) && contains_opt(
                page_actions(p),
                p.encoders@[k].1.turn_ccw,
            ),
        forall|k: int|
            0 <= k < p.leds@.len() ==> contains_opt(page_actions(p), #[trigger] p.leds@[k].1.press),
{
    let ka = key_actions(Seq::empty(), p.keys@);
    let ea = encoder_actions(ka, p.encoders@);
    assert forall|k: int| 0 <= k < p.keys@.len() implies contains_opt(
        page_actions(p),
        #[trigger] p.keys@[k].1.press,
    ) && contains_opt(page_actions(p), p.keys@[k].1.long_press) by {
        lemma_key_actions_contain(Seq::empty(), p.keys@, k);
        lemma_encoder_actions_keep(ka, p.encoders@);
        lemma_led_actions_keep(ea, p.leds@);
    }
    assert forall|k: int| 0 <= k < p.encoders@.len() implies contains_opt(
        page_actions(p),
        #[trigger] p.encoders@[k].1.press,
    ) && contains_opt(page_actions(p), p.encoders@[k].1.turn_cw) && contains_opt(
        page_actions(p),
        p.encoders@[k].1.turn_ccw,
    ) by {
        lemma_encoder_actions_contain(ka, p.encoders@, k);
        lemma_led_actions_keep(ea, p.leds@);
    }
    assert forall|k: int| 0 <= k < p.leds@.len() implies contains_opt(
        page_actions(p),
        #[trigger] p.leds@[k].1.press,
    ) by {
        lemma_led_actions_contain(ea, p.leds@, k);
    }
}

/// Whether the action in `o`, if any, is one of `s`.
pub open spec fn contains_opt(s: Seq<Action>, o: Option<Action>) -> bool {
    match o {
        Some(a) => s.contains(a),
        None => true,
    }
}

proof fn lemma_push_opt_keeps(s: Seq<Action>, o: Option<Action>)
    ensures
        forall|a: Action| s.contains(a) ==> #[trigger] push_opt(s, o).contains(a),
        contains_opt(push_opt(s, o), o),
{
    match o {
        Some(x) => {
            assert forall|a: Action| s.contains(a) implies #[trigger] s.push(x).contains(a) by {
                let j = choose|j: int| 0 <= j < s.len() && s[j] == a;
                assert(s.push(x)[j] == a);
            }
            assert(s.push(x)[s.len() as int] == x);
        },
        None => {},
    }
}

proof fn lemma_key_actions_contain(base: Seq<Action>, keys: Seq<(u8, Key)>, k: int)
    requires
        0 <= k < keys.len(),
    ensures
        contains_opt(key_actions(base, keys), keys[k].1.press),
        contains_opt(key_actions(base, keys), keys[k].1.long_press),
    decreases keys.len(),
{
    let key = keys.last().1;
    let rest = key_actions(base, keys.drop_last());
    lemma_push_opt_keeps(rest, key.press);
    lemma_push_opt_keeps(push_opt(rest, key.press), key.long_press);
    if k < keys.len() - 1 {
        lemma_key_actions_contain(base, keys.drop_last(), k);
        assert(keys.drop_last()[k] == keys[k]);
    }
}

proof fn lemma_encoder_actions_keep(base: Seq<Action>, m: Seq<(String, Encoder)>)
    ensures
        forall|a: Action| base.contains(a) ==> #[trigger] encoder_actions(base, m).contains(a),
    decreases m.len(),
{
    if m.len() > 0 {
        let e = m.last().1;
        let rest = encoder_actions(base, m.drop_last());
        lemma_encoder_actions_keep(base, m.drop_last());
        lemma_push_opt_keeps(rest, e.press);
        lemma_push_opt_keeps(push_opt(rest, e.press), e.turn_cw);
        lemma_push_opt_keeps(push_opt(push_opt(rest, e.press), e.turn_cw), e.turn_ccw);
    }
}

proof fn lemma_encoder_actions_contain(base: Seq<Action>, m: Seq<(String, Encoder)>, k: int)
    requires
        0 <= k < m.len(),
    ensures
        contains_opt(encoder_actions(base, m), m[k].1.press),
        contains_opt(encoder_actions(base, m), m[k].1.turn_cw),
        contains_opt(encoder_actions(base, m), m[k].1.turn_ccw),
    decreases m.len(),
{
    let e = m.last().1;
    let rest = encoder_actions(base, m.drop_last());
    let s1 = push_opt(rest, e.press);
    let s2 = push_opt(s1, e.turn_cw);
    lemma_push_opt_keeps(rest, e.press);
    lemma_push_opt_keeps(s1, e.turn_cw);
    lemma_push_opt_keeps(s2, e.turn_ccw);
    if k < m.len() - 1 {
        lemma_encoder_actions_contain(base, m.drop_last(), k);
        assert(m.drop_last()[k] == m[k]);
    }
}

proof fn lemma_led_actions_keep(base: Seq<Action>, m: Seq<(String, Led)>)
    ensures
        forall|a: Action| base.contains(a) ==> #[trigger] led_actions(base, m).contains(a),
    decreases m.len(),
{
    if m.len() > 0 {
        lemma_led_actions_keep(base, m.drop_last());
        lemma_push_opt_keeps(led_actions(base, m.drop_last()), m.last().1.press);
    }
}

proof fn lemma_led_actions_contain(base: Seq<Action>, m: Seq<(String, Led)>, k: int)
    requires
        0 <= k < m.len(),
    ensures
        contains_opt(led_actions(base, m), m[k].1.press),
    decreases m.len(),
{
    lemma_push_opt_keeps(led_actions(base, m.drop_last()), m.last().1.press);
    if k < m.len() - 1 {
        lemma_led_actions_contain(base, m.drop_last(), k);
        assert(m.drop_last()[k] == m[k]);
    }
}

/// On an accepted profile, every page action that a page itself defines
/// switches to a defined page.
pub proof fn lemma_checked_action_lands(p: Profile, i: int, a: Action)
    requires
        spec_validate(p) is None,
        0 <= i < p.pages@.len(),
        page_actions(p.pages@[i].1).contains(a),
    ensures
        !targets_missing(a, p.pages@),
{
    lemma_valid_profile_references(p);
    let j = choose|j: int| 0 <= j < page_actions(p.pages@[i].1).len() && page_actions(p.pages@[i].1)[j] == a;
    assert(!targets_missing(page_actions(p.pages@[i].1)[j], p.pages@));
}

} // verus!
