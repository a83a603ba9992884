//! The value format of a draw: a literal prefix, one `{...}` placeholder
//! with an optional precision (`{:.0}`, `{:.1}`, `{:.2f}`), and a literal
//! suffix, as in `"{:.0} ft"` or `"{:.0}%"`. A format without a `{` followed
//! later by a `}` prints as it is. Printing the number itself is the caller's job.

use vstd::prelude::*;

use crate::text::{
    chars_of, codes, codes_of, decimal, digit_value, lemma_decimal_numeral, lemma_numeral_digits,
    lemma_numeral_parses, parse_uint, parse_unsigned,
};

verus! {

broadcast use vstd::string::group_string_axioms;

/// The position of the first `c` in `s`.
pub open spec fn first_index_of(s: Seq<char>, c: char) -> Option<int>
    decreases s.len(),
{
    if s.len() == 0 {
        None
    } else {
        match first_index_of(s.drop_last(), c) {
            Some(i) => Some(i),
            None => if s.last() == c {
                Some(s.len() - 1)
            } else {
                None
            },
        }
    }
}

proof fn lemma_first_index_of_unique(s: Seq<char>, c: char, r: Option<int>)
    requires
        r matches Some(i) ==> 0 <= i < s.len() && s[i] == c && forall|k: int|
            0 <= k < i ==> s[k] != c,
        r is None ==> forall|k: int| 0 <= k < s.len() ==> s[k] != c,
    ensures
        first_index_of(s, c) == r,
    decreases s.len(),
{
    if s.len() > 0 {
        match r {
            Some(i) => {
                if i < s.len() - 1 {
                    lemma_first_index_of_unique(s.drop_last(), c, r);
                } else {
                    lemma_first_index_of_unique(s.drop_last(), c, None);
                }
            },
            None => {
                lemma_first_index_of_unique(s.drop_last(), c, None);
            },
        }
    }
}

/// `s` without its trailing run of `c`.
pub open spec fn trim_end_char(s: Seq<char>, c: char) -> Seq<char>
    decreases s.len(),
{
    if s.len() > 0 && s.last() == c {
        trim_end_char(s.drop_last(), c)
    } else {
        s
    }
}

/// How the number is printed.
#[derive(Debug, Clone, Copy, PartialEq, Eq, Structural)]
pub enum Number {
    /// The format has no placeholder: it prints as it is, with no number.
    Absent,
    /// With this many digits after the point.
    Fixed(usize),
    /// A whole number without a point, anything else as the float prints.
    Plain,
}

/// A parsed value format.
#[derive(Debug, Clone)]
pub struct ValueFormat {
    pub prefix: String,
    pub number: Number,
    pub suffix: String,
}

/// The number style inside a placeholder: a precision after the first `.`
/// (trailing `f`s ignored) that parses as a `usize`; anything else plain.
pub open spec fn spec_number(inner: Seq<char>) -> Number {
    match first_index_of(inner, '.') {
        None => Number::Plain,
        Some(d) => match parse_uint(
            codes(trim_end_char(inner.subrange(d + 1, inner.len() as int), 'f')),
            10,
            usize::MAX as nat,
        ) {
            Some(p) => Number::Fixed(p as usize),
            None => Number::Plain,
        },
    }
}

/// What a format means: prefix, number style and suffix.
pub open spec fn spec_value_format(f: Seq<char>) -> (Seq<char>, Number, Seq<char>) {
    match (first_index_of(f, '{'), first_index_of(f, '}')) {
        (Some(a), Some(b)) => if a < b {
            (f.subrange(0, a), spec_number(f.subrange(a + 1, b)), f.subrange(b + 1, f.len() as int))
        } else {
            (f, Number::Absent, Seq::empty())
        },
        _ => (f, Number::Absent, Seq::empty()),
    }
}

fn first_of(cs: &Vec<char>, c: char) -> (r: Option<usize>)
    ensures
        match r {
            Some(i) => first_index_of(cs@, c) == Some(i as int) && i < cs@.len() && cs@[i as int] == c,
            None => first_index_of(cs@, c) is None,
        },
{
    let mut i: usize = 0;
    while i < cs.len()
        invariant
            i <= cs@.len(),
            forall|k: int| 0 <= k < i ==> cs@[k] != c,
        decreases cs@.len() - i,
    {
        if cs[i] == c {
            proof {
                lemma_first_index_of_unique(cs@, c, Some(i as int));
            }
            return Some(i);
        }
        i = i + 1;
    }
    proof {
        lemma_first_index_of_unique(cs@, c, None);
    }
    None
}

fn number_of(inner: &str) -> (r: Number)
    ensures
        r == spec_number(inner@),
{
    let cs = chars_of(inner);
    match first_of(&cs, '.') {
        None => Number::Plain,
        Some(d) => {
            let n = cs.len();
            let mut e: usize = n;
            let ghost tail = cs@.subrange(d + 1, n as int);
            assert(tail.subrange(0, tail.len() as int) =~= tail);
            while e > d + 1 && cs[e - 1] == 'f'
                invariant
                    d < n == cs@.len(),
                    d + 1 <= e <= n,
                    tail == cs@.subrange(d + 1, n as int),
                    trim_end_char(tail, 'f') == trim_end_char(
                        cs@.subrange(d + 1, e as int),
                        'f',
                    ),
                decreases e,
            {
                assert(cs@.subrange(d + 1, e as int).drop_last() =~= cs@.subrange(
                    d + 1,
                    e - 1,
                ));
                e = e - 1;
            }
            let digits = codes_of(chars_of(inner.substring_char(d + 1, e)).as_slice());
            match parse_unsigned(digits.as_slice(), 10, usize::MAX as u64) {
                Some(p) => Number::Fixed(p as usize),
                None => Number::Plain,
            }
        },
    }
}

/// Split a value format into its prefix, number style and suffix.
pub fn value_format(fmt: &str) -> (r: ValueFormat)
    ensures
        (r.prefix@, r.number, r.suffix@) == spec_value_format(fmt@),
{
    let cs = chars_of(fmt);
    match (first_of(&cs, '{'), first_of(&cs, '}')) {
        (Some(a), Some(b)) if a < b => {
            let n = cs.len();
            assert(b < n);
            let after = b + 1;
            ValueFormat {
                prefix: String::from_str(fmt.substring_char(0, a)),
                number: number_of(fmt.substring_char(a + 1, b)),
                suffix: String::from_str(fmt.substring_char(after, n)),
            }
        },
        _ => ValueFormat { prefix: String::from_str(fmt), number: Number::Absent, suffix: String::new() },
    }
}

proof fn lemma_decimal_chars(n: nat)
    ensures
        decimal(n).len() >= 1,
        forall|k: int| 0 <= k < decimal(n).len() ==> 0x30 <= (#[trigger] decimal(n)[k]) as u32 <= 0x39,
{
    lemma_decimal_numeral(n);
    lemma_numeral_digits(n, 10);
    assert forall|k: int| 0 <= k < decimal(n).len() implies 0x30 <= (#[trigger] decimal(n)[k]) as u32
        <= 0x39 by {
        assert(digit_value(codes(decimal(n))[k], 10) is Some);
    }
}

proof fn lemma_trim_end_digits(s: Seq<char>, extra: Seq<char>)
    requires
        s.len() >= 1,
        s.last() != 'f',
        forall|k: int| 0 <= k < extra.len() ==> #[trigger] extra[k] == 'f',
    ensures
        trim_end_char(s + extra, 'f') == s,
    decreases extra.len(),
{
    if extra.len() == 0 {
        assert(s + extra =~= s);
    } else {
        assert((s + extra).drop_last() =~= s + extra.drop_last());
        lemma_trim_end_digits(s, extra.drop_last());
    }
}

/// How a format reads, for any literal text `p` before the placeholder
/// (without braces) and any text `q` after it: `{:.n}` (or `{:.nf}`) prints
/// the number with `n` digits after the point, `{}` prints it plain, and a
/// format without `{` is printed as it is, with no number.
pub proof fn lemma_format_reads(p: Seq<char>, q: Seq<char>, n: nat, f: Seq<char>)
    requires
        forall|k: int| 0 <= k < p.len() ==> #[trigger] p[k] != '{' && p[k] != '}',
        n <= usize::MAX,
    ensures
        spec_value_format(p + seq!['{', ':', '.'] + decimal(n) + seq!['}'] + q) == (
            p,
            Number::Fixed(n as usize),
            q,
        ),
        spec_value_format(p + seq!['{', ':', '.'] + decimal(n) + seq!['f', '}'] + q) == (
            p,
            Number::Fixed(n as usize),
            q,
        ),
        spec_value_format(p + seq!['{', '}'] + q) == (p, Number::Plain, q),
        (forall|k: int| 0 <= k < f.len() ==> #[trigger] f[k] != '{') ==> spec_value_format(f) == (
            f,
            Number::Absent,
            Seq::<char>::empty(),
        ),
{
    lemma_decimal_chars(n);
    lemma_decimal_numeral(n);
    lemma_numeral_parses(n, 10, usize::MAX as nat);
    let d = decimal(n);
    let a = p.len() as int;
    let inner1 = seq![':', '.'] + d;
    let inner2 = seq![':', '.'] + d + seq!['f'];
    let f1 = p + seq!['{', ':', '.'] + d + seq!['}'] + q;
    let f2 = p + seq!['{', ':', '.'] + d + seq!['f', '}'] + q;
    let b1 = a + 3 + d.len();
    let b2 = a + 4 + d.len();
    assert forall|k: int| 0 <= k < a implies f1[k] != '{' && f1[k] != '}' && f2[k] != '{' && f2[k] != '}' by {
        assert(f1[k] == p[k] && f2[k] == p[k]);
    }
    assert(f1[a] == '{' && f2[a] == '{');
    assert forall|k: int| a < k < b1 implies f1[k] != '}' by {
        if k >= a + 3 {
            assert(f1[k] == d[k - a - 3]);
        }
    }
    assert forall|k: int| a < k < b2 implies f2[k] != '}' by {
        if k >= a + 3 && k < a + 3 + d.len() {
            assert(f2[k] == d[k - a - 3]);
        }
    }
    assert(f1[b1] == '}');
    assert(f2[b2] == '}');
    lemma_first_index_of_unique(f1, '{', Some(a));
    lemma_first_index_of_unique(f1, '}', Some(b1));
    lemma_first_index_of_unique(f2, '{', Some(a));
    lemma_first_index_of_unique(f2, '}', Some(b2));
    assert(f1.subrange(0, a) =~= p);
    assert(f2.subrange(0, a) =~= p);
    assert(f1.subrange(b1 + 1, f1.len() as int) =~= q);
    assert(f2.subrange(b2 + 1, f2.len() as int) =~= q);
    assert(f1.subrange(a + 1, b1) =~= inner1);
    assert(f2.subrange(a + 1, b2) =~= inner2);
    lemma_first_index_of_unique(inner1, '.', Some(1));
    lemma_first_index_of_unique(inner2, '.', Some(1));
    assert(inner1.subrange(2, inner1.len() as int) =~= d);
    assert(inner2.subrange(2, inner2.len() as int) =~= d + seq!['f']);
    assert(d.last() != 'f') by {
        assert(0x30 <= d[d.len() - 1] as u32 <= 0x39);
    }
    lemma_trim_end_digits(d, Seq::empty());
    assert(d + Seq::<char>::empty() =~= d);
    lemma_trim_end_digits(d, seq!['f']);
    // {}
    let f3 = p + seq!['{', '}'] + q;
    assert forall|k: int| 0 <= k < a implies f3[k] != '{' && f3[k] != '}' by {
        assert(f3[k] == p[k]);
    }
    lemma_first_index_of_unique(f3, '{', Some(a));
    lemma_first_index_of_unique(f3, '}', Some(a + 1));
    assert(f3.subrange(0, a) =~= p);
    assert(f3.subrange(a + 2, f3.len() as int) =~= q);
    assert(f3.subrange(a + 1, a + 1) =~= Seq::<char>::empty());
    lemma_first_index_of_unique(Seq::<char>::empty(), '.', None);
    // no brace
    if forall|k: int| 0 <= k < f.len() ==> #[trigger] f[k] != '{' {
        lemma_first_index_of_unique(f, '{', None);
    }
}

} // verus!
