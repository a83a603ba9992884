//! The X-Plane side: the discovery beacon, dataref references, and the
//! meaning of the Web API's JSON replies and value updates.
//!
//! The client side of a session is the request-id counter and the
//! addresses and WebSocket requests it builds; moving them over the network
//! is the caller's job.
//!
//! Numbers that X-Plane sends as IEEE-754 doubles are carried here as their
//! 64-bit patterns (`f64::to_bits`); the library selects and forwards them
//! but never computes with them.

use vstd::prelude::*;

use crate::text::{
    chars_of, codes, codes_of, decimal, is_numeral_char, lemma_decimal_numeral, lemma_numeral_digits,
    lemma_numeral_parses, parse_i64, parse_i64_spec, parse_uint, parse_unsigned, push_decimal,
};

verus! {

broadcast use vstd::string::group_string_axioms;

/// The bit pattern of the double 1.0.
pub const ONE_BITS: u64 = 0x3FF0_0000_0000_0000;

/// Where X-Plane was found.
#[derive(Debug, Clone)]
pub struct SimAddr {
    pub host: String,
    pub xplane_version: i32,
}

/// Metadata for a resolved dataref.
#[derive(Debug, Clone, Copy, PartialEq, Eq, Structural)]
pub struct DatarefMeta {
    pub id: i64,
    pub writable: bool,
}

// ---------------------------------------------------------------------------
// Beacon
// ---------------------------------------------------------------------------

/// The little-endian `i32` at `b[i..i + 4]`.
pub open spec fn le_i32(b: Seq<u8>, i: int) -> int {
    let u = b[i] + b[i + 1] * 0x100 + b[i + 2] * 0x1_0000 + b[i + 3] * 0x100_0000;
    if u < 0x8000_0000 {
        u
    } else {
        u - 0x1_0000_0000
    }
}

/// A master X-Plane beacon: at least 21 bytes, starting `BECN\0`, then
/// major and minor (one byte each), host id, version (both little-endian
/// `i32`), role and port. Host id 1 is X-Plane (2 is PlaneMaker). Yields the
/// version.
pub open spec fn spec_parse_beacon(p: Seq<u8>) -> Option<int> {
    if p.len() < 21 || p.subrange(0, 5) != seq![0x42u8, 0x45, 0x43, 0x4E, 0x00] {
        None
    } else if le_i32(p, 7) != 1 {
        None
    } else {
        Some(le_i32(p, 11))
    }
}

fn read_le_i32(p: &[u8], i: usize) -> (r: i32)
    requires
        i + 4 <= p@.len(),
    ensures
        r == le_i32(p@, i as int),
{
    let u: u32 = p[i] as u32 + p[i + 1] as u32 * 0x100 + p[i + 2] as u32 * 0x1_0000 + p[i + 3] as u32
        * 0x100_0000;
    if u < 0x8000_0000 {
        u as i32
    } else {
        (u as i64 - 0x1_0000_0000) as i32
    }
}

/// Parse a beacon packet, returning the X-Plane version number, or `None`
/// if the packet is not a master X-Plane `BECN` beacon.
pub fn parse_beacon(pkt: &[u8]) -> (r: Option<i32>)
    ensures
        match r {
            Some(v) => spec_parse_beacon(pkt@) == Some(v as int),
            None => spec_parse_beacon(pkt@) is None,
        },
{
    if pkt.len() < 21 {
        return None;
    }
    let magic = pkt[0] == 0x42 && pkt[1] == 0x45 && pkt[2] == 0x43 && pkt[3] == 0x4E && pkt[4] == 0x00;
    if !magic {
        proof {
            let m = seq![0x42u8, 0x45, 0x43, 0x4E, 0x00];
            if pkt@.subrange(0, 5) == m {
                assert(pkt@.subrange(0, 5)[0] == m[0]);
                assert(pkt@.subrange(0, 5)[1] == m[1]);
                assert(pkt@.subrange(0, 5)[2] == m[2]);
                assert(pkt@.subrange(0, 5)[3] == m[3]);
                assert(pkt@.subrange(0, 5)[4] == m[4]);
            }
        }
        return None;
    }
    assert(pkt@.subrange(0, 5) =~= seq![0x42u8, 0x45, 0x43, 0x4E, 0x00]);
    let host_id = read_le_i32(pkt, 7);
    let version = read_le_i32(pkt, 11);
    if host_id != 1 {
        return None;
    }
    Some(version)
}

/// A beacon packet carries the version as a little-endian `i32` at bytes
/// 11..15: a packet that starts `BECN\0`, is at least 21 bytes long and
/// names host id 1 (X-Plane) yields that version, read as signed. Host id 2
/// (PlaneMaker), a short packet or another start yields nothing.
pub proof fn lemma_beacon_version(p: Seq<u8>, v: u32, host: u32)
    requires
        p.len() >= 21,
        p[0] == 0x42 && p[1] == 0x45 && p[2] == 0x43 && p[3] == 0x4E && p[4] == 0,
        p[7] == host % 256 && p[8] == (host / 256) % 256 && p[9] == (host / 0x1_0000) % 256
            && p[10] == host / 0x100_0000,
        p[11] == v % 256 && p[12] == (v / 256) % 256 && p[13] == (v / 0x1_0000) % 256 && p[14] == v
            / 0x100_0000,
    ensures
        host == 1 ==> spec_parse_beacon(p) == Some(
            if v < 0x8000_0000 {
                v as int
            } else {
                v - 0x1_0000_0000
            },
        ),
        host != 1 ==> spec_parse_beacon(p) is None,
{
    assert(p.subrange(0, 5) =~= seq![0x42u8, 0x45, 0x43, 0x4E, 0x00]);
    assert(p[11] + p[12] * 0x100 + p[13] * 0x1_0000 + p[14] * 0x100_0000 == v) by (nonlinear_arith)
        requires
            p[11] == v % 256 && p[12] == (v / 256) % 256 && p[13] == (v / 0x1_0000) % 256 && p[14]
                == v / 0x100_0000,
            v < 0x1_0000_0000,
    ;
    assert(p[7] + p[8] * 0x100 + p[9] * 0x1_0000 + p[10] * 0x100_0000 == host) by (nonlinear_arith)
        requires
            p[7] == host % 256 && p[8] == (host / 256) % 256 && p[9] == (host / 0x1_0000) % 256
                && p[10] == host / 0x100_0000,
            host < 0x1_0000_0000,
    ;
}

/// Packets shorter than 21 bytes, or that do not start `BECN\0`, are not
/// beacons.
pub proof fn lemma_not_beacon(p: Seq<u8>)
    requires
        p.len() < 21 || p.len() == 0 || p[0] != 0x42 || p[4] != 0,
    ensures
        spec_parse_beacon(p) is None,
{
    if p.len() >= 21 {
        assert(p.subrange(0, 5)[0] == p[0]);
        assert(p.subrange(0, 5)[4] == p[4]);
    }
}

// ---------------------------------------------------------------------------
// Dataref references
// ---------------------------------------------------------------------------

/// The index of the last `c` in `s`, if any.
pub open spec fn last_index_of(s: Seq<char>, c: char) -> Option<int>
    decreases s.len(),
{
    if s.len() == 0 {
        None
    } else if s.last() == c {
        Some(s.len() - 1)
    } else {
        last_index_of(s.drop_last(), c)
    }
}

/// A reference `name[i]` names element `i` of an array dataref; anything
/// else is a whole dataref.
pub open spec fn spec_split_ref(s: Seq<char>) -> (Seq<char>, Option<nat>) {
    match last_index_of(s, '[') {
        Some(open) => if s.len() > 0 && s.last() == ']' && open < s.len() - 1 {
            match parse_uint(codes(s.subrange(open + 1, s.len() - 1)), 10, usize::MAX as nat) {
                Some(i) => (s.subrange(0, open), Some(i)),
                None => (s, None),
            }
        } else {
            (s, None)
        },
        None => (s, None),
    }
}

pub(crate) proof fn lemma_last_index_of_unique(s: Seq<char>, c: char, r: Option<int>)
    requires
        r matches Some(i) ==> 0 <= i < s.len() && s[i] == c && forall|k: int|
            i < k < s.len() ==> s[k] != c,
        r is None ==> forall|k: int| 0 <= k < s.len() ==> s[k] != c,
    ensures
        last_index_of(s, c) == r,
    decreases s.len(),
{
    if s.len() > 0 && s.last() != c {
        lemma_last_index_of_unique(s.drop_last(), c, r);
    }
}

/// Writing `name[i]` and splitting it gives `name` and `i` back.
pub proof fn lemma_split_ref_round_trip(name: Seq<char>, i: nat)
    requires
        i <= usize::MAX,
    ensures
        spec_split_ref(name + seq!['['] + decimal(i) + seq![']']) == (name, Some(i)),
{
    let d = decimal(i);
    let s = name + seq!['['] + d + seq![']'];
    lemma_decimal_numeral(i);
    lemma_numeral_digits(i, 10);
    lemma_numeral_parses(i, 10, usize::MAX as nat);
    let open = name.len() as int;
    assert(s[open] == '[');
    assert forall|k: int| open < k < s.len() implies s[k] != '[' by {
        if k < s.len() - 1 {
            assert(s[k] == d[k - open - 1]);
            assert(is_numeral_char(d[k - open - 1]));
        }
    }
    lemma_last_index_of_unique(s, '[', Some(open));
    assert(s.subrange(open + 1, s.len() - 1) =~= d);
    assert(s.subrange(0, open) =~= name);
}

/// Split a dataref reference into its name and optional `[index]`.
pub fn split_ref(s: &str) -> (r: (&str, Option<usize>))
    ensures
        r.0@ == spec_split_ref(s@).0,
        match r.1 {
            Some(i) => spec_split_ref(s@).1 == Some(i as nat),
            None => spec_split_ref(s@).1 is None,
        },
{
    let cs = chars_of(s);
    let n = cs.len();
    let mut j: usize = n;
    while j > 0 && cs[j - 1] != '['
        invariant
            j <= n == cs@.len(),
            forall|k: int| j <= k < n ==> cs@[k] != '[',
        decreases j,
    {
        j = j - 1;
    }
    proof {
        if j > 0 {
            lemma_last_index_of_unique(cs@, '[', Some(j - 1));
        } else {
            lemma_last_index_of_unique(cs@, '[', None);
        }
    }
    if j == 0 || n == 0 || cs[n - 1] != ']' || j - 1 >= n - 1 {
        return (s, None);
    }
    let open = j - 1;
    let mut digits: Vec<char> = Vec::new();
    let mut k = open + 1;
    while k < n - 1
        invariant
            open + 1 <= k <= n - 1,
            n == cs@.len(),
            digits@ == cs@.subrange(open + 1, k as int),
        decreases n - 1 - k,
    {
        digits.push(cs[k]);
        assert(cs@.subrange(open + 1, k + 1) =~= cs@.subrange(open + 1, k as int).push(cs@[k as int]));
        k = k + 1;
    }
    let dc = codes_of(digits.as_slice());
    match parse_unsigned(dc.as_slice(), 10, usize::MAX as u64) {
        Some(i) => (s.substring_char(0, open), Some(i as usize)),
        None => (s, None),
    }
}

// ---------------------------------------------------------------------------
// Values
// ---------------------------------------------------------------------------

/// A dataref value: a number or an array of numbers (double bit patterns).
#[derive(Debug, Clone)]
pub enum DataValue {
    Num(u64),
    Array(Vec<u64>),
}

/// The mathematical view of a dataref value.
pub enum DataValueView {
    Num(u64),
    Array(Seq<u64>),
}

impl View for DataValue {
    type V = DataValueView;

    open spec fn view(&self) -> DataValueView {
        match self {
            DataValue::Num(n) => DataValueView::Num(*n),
            DataValue::Array(a) => DataValueView::Array(a@),
        }
    }
}

/// The scalar a reference reads: a number is itself whatever the index; an
/// array gives the indexed element, or its first without an index.
pub open spec fn spec_scalar(v: DataValueView, index: Option<nat>) -> Option<u64> {
    match v {
        DataValueView::Num(n) => Some(n),
        DataValueView::Array(a) => match index {
            Some(i) => if i < a.len() {
                Some(a[i as int])
            } else {
                None
            },
            None => if a.len() > 0 {
                Some(a[0])
            } else {
                None
            },
        },
    }
}

/// A reference without an index reads an array dataref's first element,
/// as `[0]` does; with an index it reads that element, and past the end
/// nothing. A number reads as itself, with or without an index.
pub proof fn lemma_scalar_reads(a: Seq<u64>, n: u64, i: nat)
    ensures
        a.len() > 0 ==> spec_scalar(DataValueView::Array(a), None) == spec_scalar(
            DataValueView::Array(a),
            Some(0),
        ),
        a.len() > 0 ==> spec_scalar(DataValueView::Array(a), None) == Some(a[0]),
        a.len() == 0 ==> spec_scalar(DataValueView::Array(a), None) is None,
        i < a.len() ==> spec_scalar(DataValueView::Array(a), Some(i)) == Some(a[i as int]),
        i >= a.len() ==> spec_scalar(DataValueView::Array(a), Some(i)) is None,
        spec_scalar(DataValueView::Num(n), None) == Some(n),
        spec_scalar(DataValueView::Num(n), Some(i)) == Some(n),
{
}

impl DataValue {
    /// Resolve to a scalar, indexing if this is an array reference.
    pub fn scalar(&self, index: Option<usize>) -> (r: Option<u64>)
        ensures
            r == spec_scalar(
                self@,
                match index {
                    Some(i) => Some(i as nat),
                    None => None,
                },
            ),
    {
        match self {
            DataValue::Num(n) => Some(*n),
            DataValue::Array(a) => match index {
                Some(i) => if i < a.len() {
                    Some(a[i])
                } else {
                    None
                },
                None => if a.len() > 0 {
                    Some(a[0])
                } else {
                    None
                },
            },
        }
    }
}

/// A live value update for a subscribed dataref id.
#[derive(Debug, Clone)]
pub struct Update {
    pub id: i64,
    pub value: DataValue,
}

// ---------------------------------------------------------------------------
// JSON replies
// ---------------------------------------------------------------------------

/// A JSON number: its value as an `i64` and as a `u64` when it is an
/// integer in range, and as a double (bit pattern). A number read from text
/// always has the double; one the library writes for an integer carries
/// the integer alone.
#[derive(Debug, Clone, Copy, PartialEq, Eq, Structural)]
pub struct JsonNumber {
    pub int: Option<i64>,
    pub uint: Option<u64>,
    pub float_bits: Option<u64>,
}

/// A JSON document. Object members keep their order; keys are distinct.
#[derive(Debug)]
pub enum Json {
    Null,
    Bool(bool),
    Number(JsonNumber),
    Str(String),
    Array(Vec<Json>),
    Object(Vec<(String, Json)>),
}

/// The index of the first member named `key`.
pub open spec fn member_index(m: Seq<(String, Json)>, key: Seq<char>) -> Option<int>
    decreases m.len(),
{
    if m.len() == 0 {
        None
    } else if m.last().0@ == key && member_index(m.drop_last(), key) is None {
        Some(m.len() - 1)
    } else {
        member_index(m.drop_last(), key)
    }
}

/// `value.get(key)`: the member `key` of an object.
pub open spec fn json_get(j: Json, key: Seq<char>) -> Option<Json> {
    match j {
        Json::Object(m) => match member_index(m@, key) {
            Some(i) => Some(m@[i].1),
            None => None,
        },
        _ => None,
    }
}

/// `value.as_str()`.
pub open spec fn json_str(j: Option<Json>) -> Option<Seq<char>> {
    match j {
        Some(Json::Str(s)) => Some(s@),
        _ => None,
    }
}

/// `value.as_i64()`.
pub open spec fn json_i64(j: Option<Json>) -> Option<i64> {
    match j {
        Some(Json::Number(n)) => n.int,
        _ => None,
    }
}

/// `value.as_bool()`.
pub open spec fn json_bool(j: Option<Json>) -> Option<bool> {
    match j {
        Some(Json::Bool(b)) => Some(b),
        _ => None,
    }
}

/// `value.as_array()`.
pub open spec fn json_array(j: Option<Json>) -> Option<Seq<Json>> {
    match j {
        Some(Json::Array(a)) => Some(a@),
        _ => None,
    }
}

proof fn lemma_member_index(m: Seq<(String, Json)>, key: Seq<char>, r: Option<int>)
    requires
        r matches Some(i) ==> 0 <= i < m.len() && m[i].0@ == key && forall|k: int|
            0 <= k < i ==> m[k].0@ != key,
        r is None ==> forall|k: int| 0 <= k < m.len() ==> m[k].0@ != key,
    ensures
        member_index(m, key) == r,
    decreases m.len(),
{
    if m.len() > 0 {
        let p = m.drop_last();
        match r {
            Some(i) => {
                if i < m.len() - 1 {
                    lemma_member_index(p, key, Some(i));
                } else {
                    lemma_member_index(p, key, None);
                }
            },
            None => {
                lemma_member_index(p, key, None);
            },
        }
    }
}

impl Json {
    /// The member `key` of an object; `None` for anything else.
    pub fn get(&self, key: &str) -> (r: Option<&Json>)
        ensures
            match r {
                Some(v) => json_get(*self, key@) == Some(*v),
                None => json_get(*self, key@) is None,
            },
    {
        match self {
            Json::Object(m) => {
                let k = String::from_str(key);
                let mut i: usize = 0;
                while i < m.len()
                    invariant
                        i <= m@.len(),
                        *self == Json::Object(*m),
                        k@ == key@,
                        forall|j: int| 0 <= j < i ==> m@[j].0@ != key@,
                    decreases m@.len() - i,
                {
                    let entry = &m[i];
                    if entry.0 == k {
                        proof {
                            lemma_member_index(m@, key@, Some(i as int));
                        }
                        assert(*entry == m@[i as int]);
                        assert(member_index(m@, key@) == Some(i as int));
                        assert(json_get(*self, key@) == Some(m@[i as int].1));
                        return Some(&entry.1);
                    }
                    i = i + 1;
                }
                proof {
                    lemma_member_index(m@, key@, None);
                }
                None
            },
            _ => None,
        }
    }
}

fn opt_str(j: Option<&Json>) -> (r: Option<&String>)
    ensures
        match r {
            Some(s) => json_str(
                match j {
                    Some(v) => Some(*v),
                    None => None,
                },
            ) == Some(s@),
            None => json_str(
                match j {
                    Some(v) => Some(*v),
                    None => None,
                },
            ) is None,
        },
{
    match j {
        Some(Json::Str(s)) => Some(s),
        _ => None,
    }
}

fn opt_array(j: Option<&Json>) -> (r: Option<&Vec<Json>>)
    ensures
        match r {
            Some(a) => json_array(
                match j {
                    Some(v) => Some(*v),
                    None => None,
                },
            ) == Some(a@),
            None => json_array(
                match j {
                    Some(v) => Some(*v),
                    None => None,
                },
            ) is None,
        },
{
    match j {
        Some(Json::Array(a)) => Some(a),
        _ => None,
    }
}

/// Lift an optional reference to an optional value, for specs.
pub open spec fn deref(j: Option<&Json>) -> Option<Json> {
    match j {
        Some(v) => Some(*v),
        None => None,
    }
}

/// The doubles of an array's number elements, in order (others skipped).
pub open spec fn numbers_of(items: Seq<Json>) -> Seq<u64>
    decreases items.len(),
{
    if items.len() == 0 {
        Seq::empty()
    } else {
        let rest = numbers_of(items.drop_last());
        match items.last() {
            Json::Number(n) => match n.float_bits {
                Some(b) => rest.push(b),
                None => rest,
            },
            _ => rest,
        }
    }
}

/// A JSON value as a dataref value: a number; a boolean as 1.0 or 0.0; an
/// array as its numbers. Strings, nulls and objects are not values.
pub open spec fn spec_json_to_value(v: Json) -> Option<DataValueView> {
    match v {
        Json::Number(n) => match n.float_bits {
            Some(b) => Some(DataValueView::Num(b)),
            None => None,
        },
        Json::Bool(b) => Some(
            DataValueView::Num(
                if b {
                    ONE_BITS
                } else {
                    0
                },
            ),
        ),
        Json::Array(a) => Some(DataValueView::Array(numbers_of(a@))),
        _ => None,
    }
}

/// Convert a JSON value to a dataref value.
pub fn json_to_value(v: &Json) -> (r: Option<DataValue>)
    ensures
        match r {
            Some(d) => spec_json_to_value(*v) == Some(d@),
            None => spec_json_to_value(*v) is None,
        },
{
    match v {
        Json::Number(n) => match n.float_bits {
            Some(b) => Some(DataValue::Num(b)),
            None => None,
        },
        Json::Bool(b) => Some(
            DataValue::Num(
                if *b {
                    ONE_BITS
                } else {
                    0
                },
            ),
        ),
        Json::Array(a) => {
            let mut nums: Vec<u64> = Vec::new();
            let mut i: usize = 0;
            while i < a.len()
                invariant
                    i <= a@.len(),
                    nums@ == numbers_of(a@.subrange(0, i as int)),
                decreases a@.len() - i,
            {
                assert(a@.subrange(0, i + 1).drop_last() =~= a@.subrange(0, i as int));
                match &a[i] {
                    Json::Number(n) => match n.float_bits {
                        Some(b) => nums.push(b),
                        None => {},
                    },
                    _ => {},
                }
                i = i + 1;
            }
            assert(a@.subrange(0, a@.len() as int) =~= a@);
            Some(DataValue::Array(nums))
        },
        _ => None,
    }
}

#[verifier::external_type_specification]
#[verifier::external_body]
pub struct ExJsonValue(serde_json::Value);

/// The document that JSON text holds, as `serde_json` reads it: `None`
/// when the text is not JSON.
pub uninterp spec fn spec_read_json(text: Seq<char>) -> Option<Json>;

/// Trusted: `serde_json::from_str::<serde_json::Value>`, with the document
/// converted one for one into `Json` (numbers by `as_i64`, `as_u64` and the
/// bits of `as_f64`; object members in the order `serde_json` keeps them).
/// Its result is named, not described: it depends on the text alone.
#[verifier::external_body]
pub fn read_json(text: &str) -> (r: Option<Json>)
    ensures
        r == spec_read_json(text@),
{
    serde_json::from_str::<serde_json::Value>(text).ok().map(|v| json_of(&v))
}

/// Trusted: the one-for-one conversion that `read_json` applies to the
/// document `serde_json` read.
#[verifier::external_body]
fn json_of(v: &serde_json::Value) -> Json {
    match v {
        serde_json::Value::Null => Json::Null,
        serde_json::Value::Bool(b) => Json::Bool(*b),
        serde_json::Value::Number(n) => Json::Number(
            JsonNumber { int: n.as_i64(), uint: n.as_u64(), float_bits: n.as_f64().map(|x| x.to_bits()) },
        ),
        serde_json::Value::String(t) => Json::Str(t.clone()),
        serde_json::Value::Array(a) => Json::Array(a.iter().map(json_of).collect()),
        serde_json::Value::Object(m) => Json::Object(m.iter().map(|(k, x)| (k.clone(), json_of(x))).collect()),
    }
}

/// An update as (id, value).
pub open spec fn update_view(u: Update) -> (i64, DataValueView) {
    (u.id, u.value@)
}

/// The updates that object members carry: each member whose key reads as an
/// `i64` id and whose value is a dataref value, in member order.
pub open spec fn member_updates(m: Seq<(String, Json)>) -> Seq<(i64, DataValueView)>
    decreases m.len(),
{
    if m.len() == 0 {
        Seq::empty()
    } else {
        let rest = member_updates(m.drop_last());
        match (parse_i64_spec(codes(m.last().0@)), spec_json_to_value(m.last().1)) {
            (Some(id), Some(v)) => rest.push((id as i64, v)),
            _ => rest,
        }
    }
}

/// A `dataref_update_values` message yields one update per member of its
/// `data` object that names an id and holds a value; any other message
/// yields none.
pub open spec fn spec_parse_updates(msg: Json) -> Seq<(i64, DataValueView)> {
    if json_str(json_get(msg, "type"@)) != Some("dataref_update_values"@) {
        Seq::empty()
    } else {
        match json_get(msg, "data"@) {
            Some(Json::Object(m)) => member_updates(m@),
            _ => Seq::empty(),
        }
    }
}

/// Read the per-id updates out of a value-update message. Other message
/// types (results, command updates) give none.
pub fn parse_updates(msg: &Json) -> (r: Vec<Update>)
    ensures
        r@.map_values(|u: Update| update_view(u)) == spec_parse_updates(*msg),
{
    let kind = opt_str(msg.get("type"));
    let expected = String::from_str("dataref_update_values");
    let is_update = match kind {
        Some(k) => *k == expected,
        None => false,
    };
    if !is_update {
        let r: Vec<Update> = Vec::new();
        assert(r@.map_values(|u: Update| update_view(u)) =~= Seq::<(i64, DataValueView)>::empty());
        return r;
    }
    let data = match msg.get("data") {
        Some(Json::Object(m)) => m,
        _ => {
            let r: Vec<Update> = Vec::new();
            assert(r@.map_values(|u: Update| update_view(u)) =~= Seq::<(i64, DataValueView)>::empty());
            return r;
        },
    };
    let mut out: Vec<Update> = Vec::new();
    let mut i: usize = 0;
    while i < data.len()
        invariant
            i <= data@.len(),
            out@.map_values(|u: Update| update_view(u)) == member_updates(data@.subrange(0, i as int)),
        decreases data@.len() - i,
    {
        assert(data@.subrange(0, i + 1).drop_last() =~= data@.subrange(0, i as int));
        let key_chars = chars_of(data[i].0.as_str());
        let key_codes = codes_of(key_chars.as_slice());
        let id = parse_i64(key_codes.as_slice());
        let value = json_to_value(&data[i].1);
        match (id, value) {
            (Some(id), Some(value)) => {
                let ghost before = out@;
                out.push(Update { id, value });
                assert(out@.map_values(|u: Update| update_view(u)) =~= before.map_values(
                    |u: Update| update_view(u),
                ).push((id, value@)));
            },
            _ => {},
        }
        i = i + 1;
    }
    assert(data@.subrange(0, data@.len() as int) =~= data@);
    out
}

/// The updates that a WebSocket text message carries: none unless it is
/// JSON.
pub open spec fn spec_update_text(text: Seq<char>) -> Seq<(i64, DataValueView)> {
    match spec_read_json(text) {
        Some(j) => spec_parse_updates(j),
        None => Seq::empty(),
    }
}

/// Read the per-id updates out of a WebSocket text message.
pub fn parse_update_text(text: &str) -> (r: Vec<Update>)
    ensures
        r@.map_values(|u: Update| update_view(u)) == spec_update_text(text@),
{
    match read_json(text) {
        Some(j) => parse_updates(&j),
        None => {
            let r: Vec<Update> = Vec::new();
            assert(r@.map_values(|u: Update| update_view(u)) =~= Seq::<(i64, DataValueView)>::empty());
            r
        },
    }
}

/// The first element of the `data` array of a REST reply.
pub open spec fn first_data_item(body: Json) -> Option<Json> {
    match json_array(json_get(body, "data"@)) {
        Some(a) => if a.len() > 0 {
            Some(a[0])
        } else {
            None
        },
        None => None,
    }
}

fn first_item(body: &Json) -> (r: Option<&Json>)
    ensures
        deref(r) == first_data_item(*body),
{
    match opt_array(body.get("data")) {
        Some(a) => if a.len() > 0 {
            Some(&a[0])
        } else {
            None
        },
        None => None,
    }
}

/// A `/datarefs?filter[name]=` reply: the first result's id, and whether it
/// is writable (`false` unless it says so).
pub open spec fn spec_dataref_meta(body: Json) -> Option<DatarefMeta> {
    match first_data_item(body) {
        Some(item) => match json_i64(json_get(item, "id"@)) {
            Some(id) => Some(
                DatarefMeta {
                    id,
                    writable: match json_bool(json_get(item, "is_writable"@)) {
                        Some(b) => b,
                        None => false,
                    },
                },
            ),
            None => None,
        },
        None => None,
    }
}

/// Read a dataref's id and writability from a REST reply.
pub fn dataref_meta(body: &Json) -> (r: Option<DatarefMeta>)
    ensures
        r == spec_dataref_meta(*body),
{
    let item = match first_item(body) {
        Some(item) => item,
        None => return None,
    };
    let id = match item.get("id") {
        Some(Json::Number(n)) => match n.int {
            Some(id) => id,
            None => return None,
        },
        _ => return None,
    };
    let writable = match item.get("is_writable") {
        Some(Json::Bool(b)) => *b,
        _ => false,
    };
    Some(DatarefMeta { id, writable })
}

/// A `/commands?filter[name]=` reply: the first result's id.
pub open spec fn spec_command_id(body: Json) -> Option<i64> {
    match first_data_item(body) {
        Some(item) => json_i64(json_get(item, "id"@)),
        None => None,
    }
}

/// Read a command's id from a REST reply.
pub fn command_id(body: &Json) -> (r: Option<i64>)
    ensures
        r == spec_command_id(*body),
{
    let item = match first_item(body) {
        Some(item) => item,
        None => return None,
    };
    match item.get("id") {
        Some(Json::Number(n)) => n.int,
        _ => None,
    }
}

/// The newest API version that `/api/capabilities` lists (the last of
/// `api.versions`), or `v2` when there is no reply or it lists none.
pub open spec fn spec_api_version(body: Option<Json>) -> Seq<char> {
    let last = match body {
        Some(b) => match json_get(b, "api"@) {
            Some(api) => match json_array(json_get(api, "versions"@)) {
                Some(v) => if v.len() > 0 {
                    json_str(Some(v.last()))
                } else {
                    None
                },
                None => None,
            },
            None => None,
        },
        None => None,
    };
    match last {
        Some(s) => s,
        None => "v2"@,
    }
}

/// Pick the Web API version from a capabilities reply.
pub fn api_version(body: Option<&Json>) -> (r: String)
    ensures
        r@ == spec_api_version(deref(body)),
{
    let fallback = String::from_str("v2");
    let b = match body {
        Some(b) => b,
        None => return fallback,
    };
    let api = match b.get("api") {
        Some(api) => api,
        None => return fallback,
    };
    let versions = match opt_array(api.get("versions")) {
        Some(v) => v,
        None => return fallback,
    };
    if versions.len() == 0 {
        return fallback;
    }
    match &versions[versions.len() - 1] {
        Json::Str(s) => s.clone(),
        _ => fallback,
    }
}

/// How a JSON value reads as a dataref value: a number as its double, `true`
/// as 1.0 and `false` as 0.0, an array as its numbers in order; strings,
/// nulls and objects are not values.
pub proof fn lemma_json_values(n: JsonNumber, b: bool, t: String, m: Vec<(String, Json)>)
    ensures
        n.float_bits matches Some(x) ==> spec_json_to_value(Json::Number(n)) == Some(
            DataValueView::Num(x),
        ),
        n.float_bits is None ==> spec_json_to_value(Json::Number(n)) is None,
        spec_json_to_value(Json::Bool(true)) == Some(DataValueView::Num(0x3FF0_0000_0000_0000u64)),
        spec_json_to_value(Json::Bool(false)) == Some(DataValueView::Num(0u64)),
        spec_json_to_value(Json::Str(t)) is None,
        spec_json_to_value(Json::Null) is None,
        spec_json_to_value(Json::Object(m)) is None,
{
}

proof fn lemma_numbers_of_concat(a: Seq<Json>, b: Seq<Json>)
    ensures
        numbers_of(a + b) == numbers_of(a) + numbers_of(b),
    decreases b.len(),
{
    if b.len() == 0 {
        assert(a + b =~= a);
        assert(numbers_of(a) + numbers_of(b) =~= numbers_of(a));
    } else {
        lemma_numbers_of_concat(a, b.drop_last());
        assert((a + b).drop_last() =~= a + b.drop_last());
        assert((a + b).last() == b.last());
        match b.last() {
            Json::Number(n) => match n.float_bits {
                Some(x) => {
                    assert(numbers_of(a) + numbers_of(b) =~= (numbers_of(a) + numbers_of(
                        b.drop_last(),
                    )).push(x));
                },
                None => {},
            },
            _ => {},
        }
    }
}

/// An array's numbers keep their order: those of a joined array are those
/// of the first part, then those of the second.
pub proof fn lemma_array_numbers_in_order(a: Seq<Json>, b: Seq<Json>)
    ensures
        numbers_of(a + b) == numbers_of(a) + numbers_of(b),
{
    lemma_numbers_of_concat(a, b);
}

proof fn lemma_member_updates_concat(a: Seq<(String, Json)>, b: Seq<(String, Json)>)
    ensures
        member_updates(a + b) == member_updates(a) + member_updates(b),
    decreases b.len(),
{
    if b.len() == 0 {
        assert(a + b =~= a);
        assert(member_updates(a) + member_updates(b) =~= member_updates(a));
    } else {
        lemma_member_updates_concat(a, b.drop_last());
        assert((a + b).drop_last() =~= a + b.drop_last());
        assert((a + b).last() == b.last());
        match (parse_i64_spec(codes(b.last().0@)), spec_json_to_value(b.last().1)) {
            (Some(id), Some(v)) => {
                assert(member_updates(a) + member_updates(b) =~= (member_updates(a)
                    + member_updates(b.drop_last())).push((id as i64, v)));
            },
            _ => {},
        }
    }
}

/// The members of an update message's `data` give updates in member order,
/// one each: a member keyed by the decimal numeral of id `n` whose value is
/// a dataref value updates id `n` to that value; a member whose value is
/// not a dataref value gives nothing.
pub proof fn lemma_member_updates(
    a: Seq<(String, Json)>,
    b: Seq<(String, Json)>,
    k: String,
    v: Json,
    n: nat,
)
    requires
        k@ == decimal(n),
        n <= 0x7FFF_FFFF_FFFF_FFFF,
    ensures
        member_updates(a + b) == member_updates(a) + member_updates(b),
        spec_json_to_value(v) matches Some(d) ==> member_updates(seq![(k, v)]) == seq![(n as i64, d)],
        spec_json_to_value(v) is None ==> member_updates(seq![(k, v)]) == Seq::<(i64, DataValueView)>::empty(),
{
    lemma_member_updates_concat(a, b);
    lemma_decimal_numeral(n);
    lemma_numeral_digits(n, 10);
    lemma_numeral_parses(n, 10, 0x7FFF_FFFF_FFFF_FFFF);
    let c = codes(decimal(n));
    assert(c[0] != 0x2D) by {
        assert(is_numeral_char(decimal(n)[0]));
    }
    assert(parse_i64_spec(c) == Some(n as int));
    let one = seq![(k, v)];
    assert(one.drop_last() =~= Seq::<(String, Json)>::empty());
    assert(member_updates(one.drop_last()) == Seq::<(i64, DataValueView)>::empty());
    assert(one.last() == (k, v));
    assert(codes(one.last().0@) == c);
    assert((n as int) as i64 == n as i64);
    match spec_json_to_value(v) {
        Some(d) => {
            assert(member_updates(one) =~= Seq::<(i64, DataValueView)>::empty().push((n as i64, d)));
        },
        None => {},
    }
}

/// Only a message of type `dataref_update_values` carries updates; its
/// updates are those of its `data` object's members.
pub proof fn lemma_update_messages(msg: Json)
    ensures
        json_str(json_get(msg, "type"@)) != Some("dataref_update_values"@) ==> spec_parse_updates(
            msg,
        ) == Seq::<(i64, DataValueView)>::empty(),
        json_str(json_get(msg, "type"@)) == Some("dataref_update_values"@) ==> spec_parse_updates(
            msg,
        ) == match json_get(msg, "data"@) {
            Some(Json::Object(m)) => member_updates(m@),
            _ => Seq::<(i64, DataValueView)>::empty(),
        },
{
}

/// A REST lookup reads the first element of the reply's `data` array: its
/// `id` (an integer), and for a dataref whether it is writable, which is
/// so only when `is_writable` is `true`.
pub proof fn lemma_rest_replies(body: Json, a: Seq<Json>)
    requires
        json_array(json_get(body, "data"@)) == Some(a),
    ensures
        a.len() == 0 ==> spec_command_id(body) is None && spec_dataref_meta(body) is None,
        a.len() > 0 ==> spec_command_id(body) == json_i64(json_get(a[0], "id"@)),
        a.len() > 0 ==> match json_i64(json_get(a[0], "id"@)) {
            Some(id) => spec_dataref_meta(body) == Some(
                DatarefMeta {
                    id,
                    writable: json_bool(json_get(a[0], "is_writable"@)) == Some(true),
                },
            ),
            None => spec_dataref_meta(body) is None,
        },
{
}

/// The API version is the last one the capabilities list names, and `v2`
/// without a reply or a list.
pub proof fn lemma_api_version(body: Json, api: Json, v: Seq<Json>)
    ensures
        spec_api_version(None) == "v2"@,
        json_get(body, "api"@) is None ==> spec_api_version(Some(body)) == "v2"@,
        json_get(body, "api"@) == Some(api) && json_array(json_get(api, "versions"@)) == Some(v) ==> (
        if v.len() > 0 && v.last() is Str {
            spec_api_version(Some(body)) == v.last()->Str_0@
        } else {
            spec_api_version(Some(body)) == "v2"@
        }),
{
}

// ---------------------------------------------------------------------------
// The client: addresses and requests
// ---------------------------------------------------------------------------

/// The REST base (and, with `ws://`, the WebSocket address) of API
/// `version` at `host:port`, after the scheme.
pub open spec fn api_path(host: Seq<char>, port: u16, version: Seq<char>) -> Seq<char> {
    host + ":"@ + decimal(port as nat) + "/api/"@ + version
}

/// `http://host:port/api/capabilities`, where the API versions are listed.
pub open spec fn spec_capabilities_url(host: Seq<char>, port: u16) -> Seq<char> {
    "http://"@ + host + ":"@ + decimal(port as nat) + "/api/capabilities"@
}

fn host_port(scheme: &str, host: &str, port: u16) -> (r: String)
    ensures
        r@ == scheme@ + host@ + ":"@ + decimal(port as nat),
{
    let mut s = String::from_str(scheme);
    s.append(host);
    s.append(":");
    push_decimal(&mut s, port as u64);
    s
}

/// The address that lists the API versions.
pub fn capabilities_url(host: &str, port: u16) -> (r: String)
    ensures
        r@ == spec_capabilities_url(host@, port),
{
    let mut s = host_port("http://", host, port);
    s.append("/api/capabilities");
    s
}

/// The WebSocket address of API `version`.
pub fn ws_url(host: &str, port: u16, version: &str) -> (r: String)
    ensures
        r@ == "ws://"@ + api_path(host@, port, version@),
{
    let mut s = host_port("ws://", host, port);
    s.append("/api/");
    s.append(version);
    s
}

/// A request for the WebSocket, as plain values; the caller writes it as
/// the Web API's JSON.
#[derive(Debug, Clone)]
pub enum Request {
    /// `dataref_subscribe_values` for these whole datarefs.
    Subscribe { req_id: u64, ids: Vec<i64> },
    /// `dataref_set_values`: write the double with bit pattern `value`.
    SetDataref { req_id: u64, id: i64, value: u64 },
    /// `command_set_is_active`: press (with duration 0) or release.
    CommandActive { req_id: u64, id: i64, active: bool },
}

/// A request as plain values: kind, request id, ids, value, flag.
pub enum RequestView {
    Subscribe(u64, Seq<i64>),
    SetDataref(u64, i64, u64),
    CommandActive(u64, i64, bool),
}

impl View for Request {
    type V = RequestView;

    open spec fn view(&self) -> RequestView {
        match self {
            Request::Subscribe { req_id, ids } => RequestView::Subscribe(*req_id, ids@),
            Request::SetDataref { req_id, id, value } => RequestView::SetDataref(*req_id, *id, *value),
            Request::CommandActive { req_id, id, active } => RequestView::CommandActive(
                *req_id,
                *id,
                *active,
            ),
        }
    }
}

/// The request id after `r`: ids count up from 1 and wrap like the
/// atomic counter they come from.
pub open spec fn next_req(r: u64) -> u64 {
    if r == u64::MAX {
        0
    } else {
        (r + 1) as u64
    }
}

/// A session with the Web API: its REST base address and the id the next
/// request will carry.
pub struct Sim {
    rest_base: String,
    req: u64,
}

impl Sim {
    /// The REST base address.
    pub closed spec fn spec_rest_base(&self) -> Seq<char> {
        self.rest_base@
    }

    /// The id the next request will carry.
    pub closed spec fn spec_req(&self) -> u64 {
        self.req
    }

    /// A session with API `version` at `host:port`; request ids start at 1.
    pub fn new(host: &str, port: u16, version: &str) -> (r: Sim)
        ensures
            r.spec_rest_base() == "http://"@ + api_path(host@, port, version@),
            r.spec_req() == 1,
    {
        let mut s = host_port("http://", host, port);
        s.append("/api/");
        s.append(version);
        Sim { rest_base: s, req: 1 }
    }

    /// The REST base address.
    pub fn rest_base(&self) -> (r: &String)
        ensures
            r@ == self.spec_rest_base(),
    {
        &self.rest_base
    }

    /// The REST address that looks up dataref `name`.
    pub fn dataref_url(&self, name: &str) -> (r: String)
        ensures
            r@ == self.spec_rest_base() + "/datarefs?filter[name]="@ + name@,
    {
        let mut s = self.rest_base.clone();
        s.append("/datarefs?filter[name]=");
        s.append(name);
        s
    }

    /// The REST address that looks up command `name`.
    pub fn command_url(&self, name: &str) -> (r: String)
        ensures
            r@ == self.spec_rest_base() + "/commands?filter[name]="@ + name@,
    {
        let mut s = self.rest_base.clone();
        s.append("/commands?filter[name]=");
        s.append(name);
        s
    }

    fn take_req(&mut self) -> (r: u64)
        ensures
            r == old(self).spec_req(),
            final(self).spec_req() == next_req(r),
            final(self).spec_rest_base() == old(self).spec_rest_base(),
    {
        let r = self.req;
        self.req = self.req.wrapping_add(1);
        r
    }

    /// Subscribe to live values of the given datarefs. No ids, no request
    /// (and no id used).
    pub fn subscribe(&mut self, ids: &[i64]) -> (r: Option<Request>)
        ensures
            final(self).spec_rest_base() == old(self).spec_rest_base(),
            ids@.len() == 0 ==> r is None && final(self).spec_req() == old(self).spec_req(),
            ids@.len() > 0 ==> (r matches Some(q) && q@ == RequestView::Subscribe(
                old(self).spec_req(),
                ids@,
            ) && final(self).spec_req() == next_req(old(self).spec_req())),
    {
        if ids.len() == 0 {
            return None;
        }
        let req_id = self.take_req();
        let mut v: Vec<i64> = Vec::new();
        let mut i: usize = 0;
        while i < ids.len()
            invariant
                i <= ids@.len(),
                v@ == ids@.subrange(0, i as int),
            decreases ids@.len() - i,
        {
            v.push(ids[i]);
            assert(ids@.subrange(0, i + 1) =~= ids@.subrange(0, i as int).push(ids@[i as int]));
            i = i + 1;
        }
        assert(ids@.subrange(0, ids@.len() as int) =~= ids@);
        Some(Request::Subscribe { req_id, ids: v })
    }

    /// Write the double with bit pattern `value` to dataref `id`.
    pub fn set_dataref(&mut self, id: i64, value: u64) -> (r: Request)
        ensures
            final(self).spec_rest_base() == old(self).spec_rest_base(),
            r@ == RequestView::SetDataref(old(self).spec_req(), id, value),
            final(self).spec_req() == next_req(old(self).spec_req()),
    {
        let req_id = self.take_req();
        Request::SetDataref { req_id, id, value }
    }

    /// Fire command `id` as a momentary tap: press, then release, under
    /// consecutive request ids.
    pub fn run_command(&mut self, id: i64) -> (r: (Request, Request))
        ensures
            final(self).spec_rest_base() == old(self).spec_rest_base(),
            r.0@ == RequestView::CommandActive(old(self).spec_req(), id, true),
            r.1@ == RequestView::CommandActive(next_req(old(self).spec_req()), id, false),
            final(self).spec_req() == next_req(next_req(old(self).spec_req())),
    {
        let press = self.take_req();
        let release = self.take_req();
        (
            Request::CommandActive { req_id: press, id, active: true },
            Request::CommandActive { req_id: release, id, active: false },
        )
    }
}

// ---------------------------------------------------------------------------
// Requests as JSON
// ---------------------------------------------------------------------------

/// `j` is the string `t`.
pub open spec fn is_str(j: Json, t: Seq<char>) -> bool {
    j matches Json::Str(s) && s@ == t
}

/// `j` is the boolean `b`.
pub open spec fn is_bool(j: Json, b: bool) -> bool {
    j == Json::Bool(b)
}

/// `j` is the integer `v`, written as the library writes an `i64`.
pub open spec fn is_i64(j: Json, v: i64) -> bool {
    j == Json::Number(
        JsonNumber {
            int: Some(v),
            uint: if v >= 0 {
                Some(v as u64)
            } else {
                None
            },
            float_bits: None,
        },
    )
}

/// `j` is the integer `v`, written as the library writes a `u64`.
pub open spec fn is_u64(j: Json, v: u64) -> bool {
    j == Json::Number(
        JsonNumber {
            int: if v <= i64::MAX {
                Some(v as i64)
            } else {
                None
            },
            uint: Some(v),
            float_bits: None,
        },
    )
}

/// `j` is the double with bit pattern `bits`.
pub open spec fn is_double(j: Json, bits: u64) -> bool {
    j == Json::Number(JsonNumber { int: None, uint: None, float_bits: Some(bits) })
}

/// `j` is an object whose members have keys `keys`, in that order.
pub open spec fn has_keys(j: Json, keys: Seq<Seq<char>>) -> bool {
    j matches Json::Object(m) && m@.len() == keys.len() && forall|i: int|
        0 <= i < keys.len() ==> (#[trigger] m@[i]).0@ == keys[i]
}

/// Member `i` of object `j`.
pub open spec fn member(j: Json, i: int) -> Json {
    match j {
        Json::Object(m) => m@[i].1,
        _ => Json::Null,
    }
}

/// Element `i` of array `j`, when `j` is an array of `n` elements.
pub open spec fn is_array(j: Json, n: nat) -> bool {
    j matches Json::Array(a) && a@.len() == n
}

/// Element `i` of array `j`.
pub open spec fn element(j: Json, i: int) -> Json {
    match j {
        Json::Array(a) => a@[i],
        _ => Json::Null,
    }
}

/// The Web API's `type` of a request.
pub open spec fn request_type(r: RequestView) -> Seq<char> {
    match r {
        RequestView::Subscribe(..) => "dataref_subscribe_values"@,
        RequestView::SetDataref(..) => "dataref_set_values"@,
        RequestView::CommandActive(..) => "command_set_is_active"@,
    }
}

/// The id a request carries.
pub open spec fn request_id(r: RequestView) -> u64 {
    match r {
        RequestView::Subscribe(q, _) => q,
        RequestView::SetDataref(q, _, _) => q,
        RequestView::CommandActive(q, _, _) => q,
    }
}

/// The single entry of a set or command request's list: `{ "id", "value" }`
/// for a write; `{ "id", "is_active": true, "duration": 0.0 }` for a press;
/// `{ "id", "is_active": false }` for a release.
pub open spec fn entry_shape(e: Json, r: RequestView) -> bool {
    match r {
        RequestView::Subscribe(..) => false,
        RequestView::SetDataref(_, id, value) => {
            &&& has_keys(e, seq!["id"@, "value"@])
            &&& is_i64(member(e, 0), id)
            &&& is_double(member(e, 1), value)
        },
        RequestView::CommandActive(_, id, true) => {
            &&& has_keys(e, seq!["id"@, "is_active"@, "duration"@])
            &&& is_i64(member(e, 0), id)
            &&& is_bool(member(e, 1), true)
            &&& is_double(member(e, 2), 0)
        },
        RequestView::CommandActive(_, id, false) => {
            &&& has_keys(e, seq!["id"@, "is_active"@])
            &&& is_i64(member(e, 0), id)
            &&& is_bool(member(e, 1), false)
        },
    }
}

/// The `params` of a request: `{ "datarefs": [ { "id" }, ... ] }` for a
/// subscription, `{ "datarefs": [entry] }` for a write, `{ "commands":
/// [entry] }` for a command.
pub open spec fn params_shape(p: Json, r: RequestView) -> bool {
    match r {
        RequestView::Subscribe(_, ids) => {
            &&& has_keys(p, seq!["datarefs"@])
            &&& is_array(member(p, 0), ids.len())
            &&& forall|i: int|
                0 <= i < ids.len() ==> has_keys(#[trigger] element(member(p, 0), i), seq!["id"@])
                    && is_i64(member(element(member(p, 0), i), 0), ids[i])
        },
        RequestView::SetDataref(..) => {
            &&& has_keys(p, seq!["datarefs"@])
            &&& is_array(member(p, 0), 1)
            &&& entry_shape(element(member(p, 0), 0), r)
        },
        RequestView::CommandActive(..) => {
            &&& has_keys(p, seq!["commands"@])
            &&& is_array(member(p, 0), 1)
            &&& entry_shape(element(member(p, 0), 0), r)
        },
    }
}

/// A request as the Web API's JSON: `{ "type", "req_id", "params" }`.
pub open spec fn request_shape(j: Json, r: RequestView) -> bool {
    &&& has_keys(j, seq!["type"@, "req_id"@, "params"@])
    &&& is_str(member(j, 0), request_type(r))
    &&& is_u64(member(j, 1), request_id(r))
    &&& params_shape(member(j, 2), r)
}

/// The Web API messages, field by field: every request is `{"type",
/// "req_id", "params"}`; a subscription's params are `{"datarefs": [{"id"},
/// ...]}` with one entry per id in order; a write is
/// `dataref_set_values` with `{"datarefs": [{"id", "value"}]}`; a command
/// press is `command_set_is_active` with `{"commands": [{"id", "is_active":
/// true, "duration": 0.0}]}` and its release `{"id", "is_active": false}`.
pub proof fn lemma_request_messages(j: Json, q: u64, id: i64, v: u64, ids: Seq<i64>, k: int)
    ensures
        request_shape(j, RequestView::Subscribe(q, ids)) ==> has_keys(
            j,
            seq!["type"@, "req_id"@, "params"@],
        ) && is_str(member(j, 0), "dataref_subscribe_values"@) && is_u64(member(j, 1), q)
            && has_keys(member(j, 2), seq!["datarefs"@]) && is_array(member(member(j, 2), 0), ids.len())
            && (0 <= k < ids.len() ==> has_keys(element(member(member(j, 2), 0), k), seq!["id"@])
            && is_i64(member(element(member(member(j, 2), 0), k), 0), ids[k])),
        request_shape(j, RequestView::SetDataref(q, id, v)) ==> is_str(
            member(j, 0),
            "dataref_set_values"@,
        ) && is_u64(member(j, 1), q) && has_keys(member(j, 2), seq!["datarefs"@]) && is_array(
            member(member(j, 2), 0),
            1,
        ) && has_keys(element(member(member(j, 2), 0), 0), seq!["id"@, "value"@]) && is_i64(
            member(element(member(member(j, 2), 0), 0), 0),
            id,
        ) && is_double(member(element(member(member(j, 2), 0), 0), 1), v),
        request_shape(j, RequestView::CommandActive(q, id, true)) ==> is_str(
            member(j, 0),
            "command_set_is_active"@,
        ) && is_u64(member(j, 1), q) && has_keys(member(j, 2), seq!["commands"@]) && is_array(
            member(member(j, 2), 0),
            1,
        ) && has_keys(element(member(member(j, 2), 0), 0), seq!["id"@, "is_active"@, "duration"@])
            && is_i64(member(element(member(member(j, 2), 0), 0), 0), id) && is_bool(
            member(element(member(member(j, 2), 0), 0), 1),
            true,
        ) && is_double(member(element(member(member(j, 2), 0), 0), 2), 0),
        request_shape(j, RequestView::CommandActive(q, id, false)) ==> is_str(
            member(j, 0),
            "command_set_is_active"@,
        ) && is_u64(member(j, 1), q) && has_keys(member(j, 2), seq!["commands"@]) && has_keys(
            element(member(member(j, 2), 0), 0),
            seq!["id"@, "is_active"@],
        ) && is_i64(member(element(member(member(j, 2), 0), 0), 0), id) && is_bool(
            member(element(member(member(j, 2), 0), 0), 1),
            false,
        ),
{
}

fn i64_json(v: i64) -> (j: Json)
    ensures
        is_i64(j, v),
{
    Json::Number(
        JsonNumber {
            int: Some(v),
            uint: if v >= 0 {
                Some(v as u64)
            } else {
                None
            },
            float_bits: None,
        },
    )
}

fn object1(k: &str, v: Json) -> (j: Json)
    ensures
        has_keys(j, seq![k@]),
        member(j, 0) == v,
{
    let mut m: Vec<(String, Json)> = Vec::new();
    m.push((String::from_str(k), v));
    Json::Object(m)
}

fn array1(v: Json) -> (j: Json)
    ensures
        is_array(j, 1),
        element(j, 0) == v,
{
    let mut a: Vec<Json> = Vec::new();
    a.push(v);
    Json::Array(a)
}

/// The single entry of a write or command request.
fn entry_json(r: &Request) -> (e: Json)
    requires
        !(r@ is Subscribe),
    ensures
        entry_shape(e, r@),
{
    let mut m: Vec<(String, Json)> = Vec::new();
    match r {
        Request::Subscribe { .. } => {},
        Request::SetDataref { id, value, .. } => {
            m.push((String::from_str("id"), i64_json(*id)));
            m.push(
                (
                    String::from_str("value"),
                    Json::Number(JsonNumber { int: None, uint: None, float_bits: Some(*value) }),
                ),
            );
        },
        Request::CommandActive { id, active, .. } => {
            m.push((String::from_str("id"), i64_json(*id)));
            m.push((String::from_str("is_active"), Json::Bool(*active)));
            if *active {
                m.push(
                    (
                        String::from_str("duration"),
                        Json::Number(JsonNumber { int: None, uint: None, float_bits: Some(0) }),
                    ),
                );
            }
        },
    }
    Json::Object(m)
}

/// A request in the Web API's JSON.
pub fn request_json(r: &Request) -> (j: Json)
    ensures
        request_shape(j, r@),
{
    let (kind, q) = match r {
        Request::Subscribe { req_id, .. } => ("dataref_subscribe_values", *req_id),
        Request::SetDataref { req_id, .. } => ("dataref_set_values", *req_id),
        Request::CommandActive { req_id, .. } => ("command_set_is_active", *req_id),
    };
    let params = match r {
        Request::Subscribe { ids, .. } => {
            let mut a: Vec<Json> = Vec::new();
            let mut i: usize = 0;
            while i < ids.len()
                invariant
                    i <= ids@.len(),
                    a@.len() == i,
                    forall|k: int|
                        0 <= k < i ==> has_keys(#[trigger] a@[k], seq!["id"@]) && is_i64(
                            member(a@[k], 0),
                            ids@[k],
                        ),
                decreases ids@.len() - i,
            {
                a.push(object1("id", i64_json(ids[i])));
                i = i + 1;
            }
            object1("datarefs", Json::Array(a))
        },
        Request::SetDataref { .. } => object1("datarefs", array1(entry_json(r))),
        Request::CommandActive { .. } => object1("commands", array1(entry_json(r))),
    };
    let mut m: Vec<(String, Json)> = Vec::new();
    m.push((String::from_str("type"), Json::Str(String::from_str(kind))));
    m.push(
        (
            String::from_str("req_id"),
            Json::Number(
                JsonNumber {
                    int: if q <= i64::MAX as u64 {
                        Some(q as i64)
                    } else {
                        None
                    },
                    uint: Some(q),
                    float_bits: None,
                },
            ),
        ),
    );
    m.push((String::from_str("params"), params));
    Json::Object(m)
}

} // verus!
