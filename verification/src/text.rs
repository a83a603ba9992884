//! Character-level text helpers shared by the parsers: reading a string's
//! characters, Unicode whitespace trimming, ASCII case folding, the integer
//! syntax of Rust's `from_str_radix`, and building strings.

use vstd::prelude::*;

verus! {

broadcast use vstd::string::group_string_axioms;

/// The characters of `s`, in order.
pub fn chars_of(s: &str) -> (r: Vec<char>)
    ensures
        r@ == s@,
{
    let mut r: Vec<char> = Vec::new();
    for c in it: s.chars()
        invariant
            r@ == it.seq().subrange(0, it.index() as int),
    {
        r.push(c);
    }
    r
}

// ---------------------------------------------------------------------------
// Whitespace and case
// ---------------------------------------------------------------------------

/// Unicode `White_Space`, the set that `char::is_whitespace` and
/// `str::trim` use.
pub open spec fn is_ws(c: char) -> bool {
    let v = c as u32;
    (0x09 <= v <= 0x0D) || v == 0x20 || v == 0x85 || v == 0xA0 || v == 0x1680 || (0x2000 <= v
        <= 0x200A) || v == 0x2028 || v == 0x2029 || v == 0x202F || v == 0x205F || v == 0x3000
}

/// Spaces, tabs, line breaks and the other Unicode spaces are whitespace;
/// ASCII letters, digits and punctuation are not. Lowercasing maps `A`..`Z`
/// to `a`..`z` and leaves every other character alone.
pub proof fn lemma_ws_and_case(c: char)
    ensures
        is_ws(' ') && is_ws('\t') && is_ws('\n') && is_ws('\r') && is_ws('\u{0B}') && is_ws('\u{0C}'),
        is_ws('\u{A0}') && is_ws('\u{3000}') && is_ws('\u{2028}'),
        0x21 <= c as u32 <= 0x7E ==> !is_ws(c),
        'A' <= c <= 'Z' ==> lower(c) as u32 == c as u32 + 32 && 'a' <= lower(c) <= 'z',
        !('A' <= c <= 'Z') ==> lower(c) == c,
{
}

/// Whether `c` is Unicode whitespace.
pub fn is_whitespace(c: char) -> (r: bool)
    ensures
        r == is_ws(c),
{
    let v = c as u32;
    (0x09 <= v && v <= 0x0D) || v == 0x20 || v == 0x85 || v == 0xA0 || v == 0x1680 || (0x2000
        <= v && v <= 0x200A) || v == 0x2028 || v == 0x2029 || v == 0x202F || v == 0x205F || v
        == 0x3000
}

/// The index of the first character of `s` at or after `i` that is not
/// whitespace (or `s.len()`).
pub open spec fn ws_end(s: Seq<char>, i: int) -> int
    decreases s.len() - i,
{
    if i < 0 || i >= s.len() {
        i
    } else if is_ws(s[i]) {
        ws_end(s, i + 1)
    } else {
        i
    }
}

/// The index just past the last character of `s[..j]` that is not
/// whitespace (or 0).
pub open spec fn ws_start_back(s: Seq<char>, j: int) -> int
    decreases j,
{
    if j <= 0 || j > s.len() {
        j
    } else if is_ws(s[j - 1]) {
        ws_start_back(s, j - 1)
    } else {
        j
    }
}

/// `str::trim`: `s` without leading and trailing whitespace.
pub open spec fn trim(s: Seq<char>) -> Seq<char> {
    let a = ws_end(s, 0);
    let b = ws_start_back(s, s.len() as int);
    if a >= b {
        Seq::empty()
    } else {
        s.subrange(a, b)
    }
}

proof fn lemma_ws_end(s: Seq<char>, i: int)
    requires
        0 <= i <= s.len(),
    ensures
        i <= ws_end(s, i) <= s.len(),
        forall|k: int| i <= k < ws_end(s, i) ==> is_ws(s[k]),
        ws_end(s, i) < s.len() ==> !is_ws(s[ws_end(s, i)]),
    decreases s.len() - i,
{
    if i < s.len() && is_ws(s[i]) {
        lemma_ws_end(s, i + 1);
    }
}

proof fn lemma_ws_start_back(s: Seq<char>, j: int)
    requires
        0 <= j <= s.len(),
    ensures
        0 <= ws_start_back(s, j) <= j,
        forall|k: int| ws_start_back(s, j) <= k < j ==> is_ws(s[k]),
        ws_start_back(s, j) > 0 ==> !is_ws(s[ws_start_back(s, j) - 1]),
    decreases j,
{
    if j > 0 && is_ws(s[j - 1]) {
        lemma_ws_start_back(s, j - 1);
    }
}

/// The bounds `[a, b)` of `trim(s)` within `s`.
pub fn trim_bounds(s: &Vec<char>) -> (r: (usize, usize))
    ensures
        r.0 <= r.1 <= s@.len(),
        trim(s@) == s@.subrange(r.0 as int, r.1 as int),
{
    let n = s.len();
    let mut a: usize = 0;
    while a < n && is_whitespace(s[a])
        invariant
            a <= n == s@.len(),
            ws_end(s@, 0) == ws_end(s@, a as int),
        decreases n - a,
    {
        a = a + 1;
    }
    let mut b: usize = n;
    while b > 0 && is_whitespace(s[b - 1])
        invariant
            b <= n == s@.len(),
            ws_start_back(s@, n as int) == ws_start_back(s@, b as int),
        decreases b,
    {
        b = b - 1;
    }
    proof {
        lemma_ws_end(s@, 0);
        lemma_ws_start_back(s@, n as int);
    }
    if a >= b {
        assert(s@.subrange(a as int, a as int) =~= Seq::<char>::empty());
        (a, a)
    } else {
        (a, b)
    }
}

/// ASCII lowercase of one character.
pub open spec fn lower(c: char) -> char {
    if 'A' <= c <= 'Z' {
        ((c as u32) + 32) as char
    } else {
        c
    }
}

/// `str::to_ascii_lowercase`.
pub open spec fn lower_all(s: Seq<char>) -> Seq<char> {
    s.map_values(|c: char| lower(c))
}

/// The ASCII lowercase of `s`.
pub fn to_ascii_lowercase(s: &[char]) -> (r: Vec<char>)
    ensures
        r@ == lower_all(s@),
{
    let mut r: Vec<char> = Vec::new();
    let mut i: usize = 0;
    while i < s.len()
        invariant
            i <= s@.len(),
            r@ == lower_all(s@.subrange(0, i as int)),
        decreases s@.len() - i,
    {
        let c = s[i];
        let l = if 'A' <= c && c <= 'Z' {
            ((c as u8) + 32) as char
        } else {
            c
        };
        r.push(l);
        assert(lower_all(s@.subrange(0, i + 1)) =~= lower_all(s@.subrange(0, i as int)).push(
            lower(s@[i as int]),
        ));
        i = i + 1;
    }
    assert(s@.subrange(0, s@.len() as int) =~= s@);
    r
}

/// Whether two character sequences are equal.
pub fn chars_eq(a: &[char], b: &[char]) -> (r: bool)
    ensures
        r == (a@ == b@),
{
    if a.len() != b.len() {
        return false;
    }
    let mut i: usize = 0;
    while i < a.len()
        invariant
            i <= a@.len() == b@.len(),
            forall|k: int| 0 <= k < i ==> a@[k] == b@[k],
        decreases a@.len() - i,
    {
        if a[i] != b[i] {
            return false;
        }
        i = i + 1;
    }
    assert(a@ =~= b@);
    true
}

// ---------------------------------------------------------------------------
// Integer syntax
// ---------------------------------------------------------------------------

/// The value of digit `c` (a character code) in `radix`, if it is one:
/// `0-9`, then `a-z` or `A-Z` from 10.
pub open spec fn digit_value(c: u32, radix: u32) -> Option<nat> {
    let v: int = if 0x30 <= c <= 0x39 {
        c - 0x30
    } else if 0x61 <= c <= 0x7A {
        c - 0x61 + 10
    } else if 0x41 <= c <= 0x5A {
        c - 0x41 + 10
    } else {
        99
    };
    if v < radix {
        Some(v as nat)
    } else {
        None
    }
}

/// Whether every element of `s` is a digit in `radix`.
pub open spec fn all_digits(s: Seq<u32>, radix: u32) -> bool {
    forall|i: int| 0 <= i < s.len() ==> (#[trigger] digit_value(s[i], radix)) is Some
}

/// The number written by the digits `s` in `radix`.
pub open spec fn digits_nat(s: Seq<u32>, radix: u32) -> nat
    decreases s.len(),
{
    if s.len() == 0 {
        0
    } else {
        let d = match digit_value(s.last(), radix) {
            Some(v) => v,
            None => 0,
        };
        digits_nat(s.drop_last(), radix) * (radix as nat) + d
    }
}

/// Rust's integer syntax for `from_str_radix` and `parse` on unsigned types:
/// an optional `+` then at least one digit, the value at most `max`.
pub open spec fn parse_uint(s: Seq<u32>, radix: u32, max: nat) -> Option<nat> {
    let digits = if s.len() > 1 && s[0] == 0x2B {
        s.drop_first()
    } else {
        s
    };
    if s.len() > 0 && all_digits(digits, radix) && digits_nat(digits, radix) <= max {
        Some(digits_nat(digits, radix))
    } else {
        None
    }
}

/// Rust's integer syntax for `parse::<i64>`: an optional `+` or `-` then at
/// least one digit, the value within `i64`.
pub open spec fn parse_i64_spec(s: Seq<u32>) -> Option<int> {
    if s.len() > 1 && s[0] == 0x2D {
        let digits = s.drop_first();
        if all_digits(digits, 10) && digits_nat(digits, 10) <= 0x8000_0000_0000_0000 {
            Some(-digits_nat(digits, 10))
        } else {
            None
        }
    } else {
        match parse_uint(s, 10, 0x7FFF_FFFF_FFFF_FFFF) {
            Some(v) => Some(v as int),
            None => None,
        }
    }
}

/// The character codes of `s`.
pub open spec fn codes(s: Seq<char>) -> Seq<u32> {
    s.map_values(|c: char| c as u32)
}

proof fn lemma_digits_nat_mono(s: Seq<u32>, radix: u32, k: int)
    requires
        0 <= k <= s.len(),
        radix >= 1,
    ensures
        digits_nat(s.subrange(0, k), radix) <= digits_nat(s, radix),
    decreases s.len() - k,
{
    if k < s.len() {
        lemma_digits_nat_mono(s, radix, k + 1);
        let p = s.subrange(0, k + 1);
        assert(p.drop_last() =~= s.subrange(0, k));
        let d = match digit_value(p.last(), radix) {
            Some(v) => v,
            None => 0,
        };
        let q = digits_nat(s.subrange(0, k), radix);
        assert(q * radix + d >= q) by (nonlinear_arith)
            requires
                radix >= 1,
                d >= 0,
                q >= 0,
        ;
    } else {
        assert(s.subrange(0, k) =~= s);
    }
}

/// Read the digits `s[from..]` in `radix`, failing unless there is at least
/// one, all are digits and the value is at most `max`.
pub fn parse_digits(s: &[u32], from: usize, radix: u32, max: u64) -> (r: Option<u64>)
    requires
        2 <= radix <= 36,
        from <= s@.len(),
    ensures
        ({
            let d = s@.subrange(from as int, s@.len() as int);
            match r {
                Some(v) => d.len() > 0 && all_digits(d, radix) && v == digits_nat(d, radix) && v
                    <= max,
                None => !(d.len() > 0 && all_digits(d, radix) && digits_nat(d, radix) <= max),
            }
        }),
{
    let ghost d = s@.subrange(from as int, s@.len() as int);
    if from >= s.len() {
        return None;
    }
    let mut value: u64 = 0;
    let mut i: usize = from;
    while i < s.len()
        invariant
            from <= i <= s@.len(),
            2 <= radix <= 36,
            d == s@.subrange(from as int, s@.len() as int),
            all_digits(s@.subrange(from as int, i as int), radix),
            value == digits_nat(s@.subrange(from as int, i as int), radix),
            value <= max,
        decreases s@.len() - i,
    {
        let c = s[i];
        let dv: u32 = if 0x30 <= c && c <= 0x39 {
            c - 0x30
        } else if 0x61 <= c && c <= 0x7A {
            c - 0x61 + 10
        } else if 0x41 <= c && c <= 0x5A {
            c - 0x41 + 10
        } else {
            99
        };
        let ghost pre = s@.subrange(from as int, i as int);
        let ghost next = s@.subrange(from as int, i + 1);
        proof {
            assert(next.drop_last() =~= pre);
            assert(next.last() == c);
            assert(s@.subrange(from as int, i + 1) =~= d.subrange(0, i + 1 - from));
        }
        if dv >= radix {
            proof {
                assert(d[i - from] == c);
                assert(digit_value(d[i - from], radix) is None);
            }
            return None;
        }
        if value > max / (radix as u64) {
            proof {
                let q = max / (radix as u64);
                assert(value * radix > max) by (nonlinear_arith)
                    requires
                        value > q,
                        q == max / (radix as u64),
                        radix >= 2,
                ;
                assert(digits_nat(next, radix) == value * radix + dv);
                lemma_digits_nat_mono(d, radix, i + 1 - from);
            }
            return None;
        }
        proof {
            let q = max / (radix as u64);
            assert(value * radix <= max) by (nonlinear_arith)
                requires
                    value <= q,
                    q == max / (radix as u64),
                    radix >= 2,
            ;
        }
        let scaled: u64 = value * (radix as u64);
        if max - scaled < dv as u64 {
            proof {
                assert(digits_nat(next, radix) == value * radix + dv);
                lemma_digits_nat_mono(d, radix, i + 1 - from);
            }
            return None;
        }
        value = scaled + dv as u64;
        proof {
            assert(digits_nat(next, radix) == value);
            assert forall|k: int| 0 <= k < next.len() implies (#[trigger] digit_value(
                next[k],
                radix,
            )) is Some by {
                if k < pre.len() {
                    assert(next[k] == pre[k]);
                }
            }
        }
        i = i + 1;
    }
    Some(value)
}

/// The codes of a character slice.
pub fn codes_of(s: &[char]) -> (r: Vec<u32>)
    ensures
        r@ == codes(s@),
{
    let mut r: Vec<u32> = Vec::new();
    let mut i: usize = 0;
    while i < s.len()
        invariant
            i <= s@.len(),
            r@ == codes(s@.subrange(0, i as int)),
        decreases s@.len() - i,
    {
        r.push(s[i] as u32);
        assert(codes(s@.subrange(0, i + 1)) =~= codes(s@.subrange(0, i as int)).push(
            s@[i as int] as u32,
        ));
        i = i + 1;
    }
    assert(s@.subrange(0, s@.len() as int) =~= s@);
    r
}

/// Parse `s` as an unsigned integer in `radix` of at most `max`, with the
/// syntax of Rust's `from_str_radix`.
pub fn parse_unsigned(s: &[u32], radix: u32, max: u64) -> (r: Option<u64>)
    requires
        2 <= radix <= 36,
    ensures
        match r {
            Some(v) => parse_uint(s@, radix, max as nat) == Some(v as nat),
            None => parse_uint(s@, radix, max as nat) is None,
        },
{
    if s.len() == 0 {
        return None;
    }
    let from: usize = if s.len() > 1 && s[0] == 0x2B {
        1
    } else {
        0
    };
    proof {
        if from == 1 {
            assert(s@.subrange(1, s@.len() as int) =~= s@.drop_first());
        } else {
            assert(s@.subrange(0, s@.len() as int) =~= s@);
        }
    }
    parse_digits(s, from, radix, max)
}

/// Parse `s` as an `i64` with the syntax of Rust's `parse::<i64>`.
pub fn parse_i64(s: &[u32]) -> (r: Option<i64>)
    ensures
        match r {
            Some(v) => parse_i64_spec(s@) == Some(v as int),
            None => parse_i64_spec(s@) is None,
        },
{
    if s.len() > 1 && s[0] == 0x2D {
        proof {
            assert(s@.subrange(1, s@.len() as int) =~= s@.drop_first());
        }
        match parse_digits(s, 1, 10, 0x8000_0000_0000_0000) {
            None => None,
            Some(m) => {
                if m == 0x8000_0000_0000_0000 {
                    Some(i64::MIN)
                } else {
                    Some(-(m as i64))
                }
            },
        }
    } else {
        match parse_unsigned(s, 10, 0x7FFF_FFFF_FFFF_FFFF) {
            None => None,
            Some(v) => Some(v as i64),
        }
    }
}

// ---------------------------------------------------------------------------
// Building strings
// ---------------------------------------------------------------------------

/// Trusted: `String::push` appends one character to the string.
#[verifier::external_body]
pub fn push_char(s: &mut String, c: char)
    ensures
        final(s)@ == old(s)@.push(c),
{
    s.push(c);
}

/// A string of the given characters.
pub fn string_of(cs: &[char]) -> (r: String)
    ensures
        r@ == cs@,
{
    let mut r = String::new();
    let mut i: usize = 0;
    while i < cs.len()
        invariant
            i <= cs@.len(),
            r@ == cs@.subrange(0, i as int),
        decreases cs@.len() - i,
    {
        push_char(&mut r, cs[i]);
        assert(cs@.subrange(0, i + 1) =~= cs@.subrange(0, i as int).push(cs@[i as int]));
        i = i + 1;
    }
    assert(cs@.subrange(0, cs@.len() as int) =~= cs@);
    r
}

/// The decimal digit character of `d < 10`.
pub open spec fn digit_char(d: nat) -> char {
    (0x30 + d) as char
}

/// The decimal numeral of `n`, without leading zeros.
pub open spec fn decimal(n: nat) -> Seq<char>
    decreases n,
{
    if n < 10 {
        seq![digit_char(n)]
    } else {
        decimal(n / 10).push(digit_char(n % 10))
    }
}

/// Append the decimal numeral of `n` to `s`.
pub fn push_decimal(s: &mut String, n: u64)
    ensures
        final(s)@ == old(s)@ + decimal(n as nat),
    decreases n,
{
    if n >= 10 {
        push_decimal(s, n / 10);
    }
    let d: u8 = (n % 10) as u8;
    push_char(s, (0x30u8 + d) as char);
    proof {
        if n >= 10 {
            assert(old(s)@ + decimal((n / 10) as nat) + seq![digit_char((n % 10) as nat)] =~= old(
                s,
            )@ + decimal(n as nat));
        } else {
            assert(old(s)@.push(digit_char(n as nat)) =~= old(s)@ + decimal(n as nat));
        }
    }
}

/// Trusted: `char::from_u32` gives the character with scalar value `v`,
/// or `None` when `v` is a surrogate (0xD800..=0xDFFF) or above 0x10FFFF.
#[verifier::external_body]
pub fn char_from_u32(v: u32) -> (r: Option<char>)
    ensures
        r is Some <==> (v <= 0x10FFFF && !(0xD800 <= v <= 0xDFFF)),
        r matches Some(c) ==> c as u32 == v,
{
    char::from_u32(v)
}

// ---------------------------------------------------------------------------
// Numerals
// ---------------------------------------------------------------------------

/// The digit character for `d`: `0-9`, then `a-z` from 10.
pub open spec fn numeral_digit(d: nat) -> char {
    if d < 10 {
        (0x30 + d) as char
    } else {
        (0x61 + d - 10) as char
    }
}

/// The numeral of `n` in `radix`, lowercase, without leading zeros.
pub open spec fn numeral(n: nat, radix: nat) -> Seq<char>
    decreases n,
{
    if radix < 2 || n < radix {
        seq![numeral_digit(n)]
    } else {
        proof {
            assert(n / radix < n) by (nonlinear_arith)
                requires
                    radix >= 2,
                    n >= radix,
            ;
        }
        numeral(n / radix, radix).push(numeral_digit(n % radix))
    }
}

/// A character that numerals use.
pub open spec fn is_numeral_char(c: char) -> bool {
    ('0' <= c <= '9') || ('a' <= c <= 'z')
}

/// The numeral of `n` is made of digits of `radix` that read back `n`.
pub proof fn lemma_numeral_digits(n: nat, radix: u32)
    requires
        2 <= radix <= 36,
    ensures
        numeral(n, radix as nat).len() >= 1,
        all_digits(codes(numeral(n, radix as nat)), radix),
        digits_nat(codes(numeral(n, radix as nat)), radix) == n,
        forall|k: int|
            0 <= k < numeral(n, radix as nat).len() ==> is_numeral_char(
                #[trigger] numeral(n, radix as nat)[k],
            ),
    decreases n,
{
    let r = radix as nat;
    let s = numeral(n, r);
    if n < r {
        let c = numeral_digit(n);
        assert(codes(s) =~= seq![c as u32]);
        assert(digit_value(c as u32, radix) == Some(n));
        assert(codes(s).drop_last() =~= Seq::<u32>::empty());
        assert(codes(s).last() == c as u32);
        assert(digits_nat(codes(s).drop_last(), radix) == 0);
        assert(0 * r == 0) by (nonlinear_arith);
        assert(digits_nat(codes(s), radix) == n);
    } else {
        assert(n / r < n) by (nonlinear_arith)
            requires
                r >= 2,
                n >= r,
        ;
        let q = n / r;
        let m = n % r;
        lemma_numeral_digits(q, radix);
        let p = numeral(q, r);
        let c = numeral_digit(m);
        assert(s == p.push(c));
        assert(codes(s) =~= codes(p).push(c as u32));
        assert(codes(s).drop_last() =~= codes(p));
        assert(m < r);
        assert(digit_value(c as u32, radix) == Some(m));
        assert(digits_nat(codes(s), radix) == q * r + m);
        assert(q * r + m == n) by (nonlinear_arith)
            requires
                q == n / r,
                m == n % r,
                r > 0,
        ;
        assert forall|k: int| 0 <= k < codes(s).len() implies (#[trigger] digit_value(codes(s)[k], radix))
            is Some by {
            if k < p.len() {
                assert(codes(s)[k] == codes(p)[k]);
            }
        }
        assert forall|k: int| 0 <= k < s.len() implies is_numeral_char(#[trigger] s[k]) by {
            if k < p.len() {
                assert(s[k] == p[k]);
            }
        }
    }
}

/// A numeral reads back as its number.
pub proof fn lemma_numeral_parses(n: nat, radix: u32, max: nat)
    requires
        2 <= radix <= 36,
        n <= max,
    ensures
        parse_uint(codes(numeral(n, radix as nat)), radix, max) == Some(n),
{
    lemma_numeral_digits(n, radix);
    let s = numeral(n, radix as nat);
    assert(is_numeral_char(s[0]));
    assert(codes(s)[0] != 0x2B);
}

/// The decimal numeral is the numeral in radix 10.
pub proof fn lemma_decimal_numeral(n: nat)
    ensures
        decimal(n) == numeral(n, 10),
    decreases n,
{
    if n >= 10 {
        lemma_decimal_numeral(n / 10);
    }
}

/// Trimming whitespace around a text that starts and ends with something
/// else gives that text.
pub proof fn lemma_trim_padded(w1: Seq<char>, t: Seq<char>, w2: Seq<char>)
    requires
        t.len() > 0,
        !is_ws(t[0]),
        !is_ws(t.last()),
        forall|i: int| 0 <= i < w1.len() ==> is_ws(#[trigger] w1[i]),
        forall|i: int| 0 <= i < w2.len() ==> is_ws(#[trigger] w2[i]),
    ensures
        trim(w1 + t + w2) == t,
{
    let s = w1 + t + w2;
    let a = w1.len() as int;
    let b = (w1.len() + t.len()) as int;
    assert(s[a] == t[0]);
    assert(s[b - 1] == t.last());
    assert forall|k: int| 0 <= k < a implies is_ws(#[trigger] s[k]) by {
        assert(s[k] == w1[k]);
    }
    assert forall|k: int| b <= k < s.len() implies is_ws(#[trigger] s[k]) by {
        assert(s[k] == w2[k - b]);
    }
    lemma_ws_end_skips(s, a, 0);
    lemma_ws_back_skips(s, b, s.len() as int);
    assert(s.subrange(a, b) =~= t);
}

proof fn lemma_ws_end_skips(s: Seq<char>, a: int, i: int)
    requires
        0 <= i <= a < s.len(),
        forall|k: int| i <= k < a ==> is_ws(#[trigger] s[k]),
        !is_ws(s[a]),
    ensures
        ws_end(s, i) == a,
    decreases a - i,
{
    if i < a {
        lemma_ws_end_skips(s, a, i + 1);
    }
}

proof fn lemma_ws_back_skips(s: Seq<char>, b: int, j: int)
    requires
        0 < b <= j <= s.len(),
        forall|k: int| b <= k < j ==> is_ws(#[trigger] s[k]),
        !is_ws(s[b - 1]),
    ensures
        ws_start_back(s, j) == b,
    decreases j - b,
{
    if j > b {
        lemma_ws_back_skips(s, b, j - 1);
    }
}

} // verus!
