//! The deck controller: the decisions of the running app. It maps device
//! input to actions on the current page (acting on presses, not releases),
//! keeps the effective encoders and LEDs of the page (inherited defaults
//! overridden per id), caches the ids that names resolve to, holds the live
//! dataref values, and remembers what each surface last showed so that only
//! changed surfaces are redrawn. Talking to the deck and to X-Plane is the
//! caller's job: the controller says what to do, the caller does it and
//! reports back.

use vstd::prelude::*;

use crate::config::{
    contains_opt, has_page, lemma_checked_action_lands, lemma_page_actions_contain, page_actions, spec_validate,
    same_error, Action, ConfigError, Draw, Encoder, Key, Led, Page, Profile,
};
use crate::device::Event;
use crate::render::{icon_glyph, parse_color, spec_icon_glyph, spec_parse_color, Rgb};
use crate::sim::{
    lemma_last_index_of_unique, lemma_split_ref_round_trip, spec_scalar,
    spec_split_ref, split_ref, DataValue, DataValueView, Update,
};
use crate::text::{decimal, push_char, push_decimal};

verus! {

broadcast use vstd::string::group_string_axioms;

// ---------------------------------------------------------------------------
// Keyed lists
// ---------------------------------------------------------------------------

/// The position of the first entry of `m` keyed `k`.
pub open spec fn index_of<T>(m: Seq<(String, T)>, k: Seq<char>) -> Option<int>
    decreases m.len(),
{
    if m.len() == 0 {
        None
    } else {
        match index_of(m.drop_last(), k) {
            Some(i) => Some(i),
            None => if m.last().0@ == k {
                Some(m.len() - 1)
            } else {
                None
            },
        }
    }
}

/// What `index_of` returns, characterised.
pub proof fn lemma_index_of<T>(m: Seq<(String, T)>, k: Seq<char>)
    ensures
        index_of(m, k) matches Some(i) ==> 0 <= i < m.len() && m[i].0@ == k && forall|j: int|
            0 <= j < i ==> m[j].0@ != k,
        index_of(m, k) is None ==> forall|j: int| 0 <= j < m.len() ==> m[j].0@ != k,
    decreases m.len(),
{
    if m.len() > 0 {
        let p = m.drop_last();
        lemma_index_of(p, k);
        assert forall|j: int| 0 <= j < p.len() implies p[j] == m[j] by {}
    }
}

proof fn lemma_index_of_unique<T>(m: Seq<(String, T)>, k: Seq<char>, r: Option<int>)
    requires
        r matches Some(i) ==> 0 <= i < m.len() && m[i].0@ == k && forall|j: int|
            0 <= j < i ==> m[j].0@ != k,
        r is None ==> forall|j: int| 0 <= j < m.len() ==> m[j].0@ != k,
    ensures
        index_of(m, k) == r,
    decreases m.len(),
{
    if m.len() > 0 {
        match r {
            Some(i) => if i < m.len() - 1 {
                lemma_index_of_unique(m.drop_last(), k, Some(i));
            } else {
                lemma_index_of_unique(m.drop_last(), k, None);
            },
            None => lemma_index_of_unique(m.drop_last(), k, None),
        }
    }
}

/// The position of the first entry keyed `k`.
pub fn find<T>(m: &Vec<(String, T)>, k: &String) -> (r: Option<usize>)
    ensures
        match r {
            Some(i) => index_of(m@, k@) == Some(i as int),
            None => index_of(m@, k@) is None,
        },
{
    let mut i: usize = 0;
    while i < m.len()
        invariant
            i <= m@.len(),
            forall|j: int| 0 <= j < i ==> m@[j].0@ != k@,
        decreases m@.len() - i,
    {
        if m[i].0 == *k {
            proof {
                lemma_index_of_unique(m@, k@, Some(i as int));
            }
            return Some(i);
        }
        i = i + 1;
    }
    proof {
        lemma_index_of_unique(m@, k@, None);
    }
    None
}

/// Where an effective encoder or LED of the current page is defined.
#[derive(Debug, Clone, Copy, PartialEq, Eq, Structural)]
pub enum Origin {
    /// The page's own entry at this position.
    Page(usize),
    /// The profile-wide default at this position.
    Profile(usize),
}

/// The keys of a keyed list.
pub open spec fn keys_of<T>(m: Seq<(String, T)>) -> Seq<Seq<char>> {
    m.map_values(|e: (String, T)| e.0@)
}

/// The position of the first `k` in `s`.
pub open spec fn first_pos(s: Seq<Seq<char>>, k: Seq<char>) -> Option<int>
    decreases s.len(),
{
    if s.len() == 0 {
        None
    } else {
        match first_pos(s.drop_last(), k) {
            Some(i) => Some(i),
            None => if s.last() == k {
                Some(s.len() - 1)
            } else {
                None
            },
        }
    }
}

proof fn lemma_first_pos_keys<T>(m: Seq<(String, T)>, k: Seq<char>)
    ensures
        first_pos(keys_of(m), k) == index_of(m, k),
    decreases m.len(),
{
    if m.len() > 0 {
        assert(keys_of(m).drop_last() =~= keys_of(m.drop_last()));
        lemma_first_pos_keys(m.drop_last(), k);
    }
}

/// The first entry of a merged list keyed `k`.
pub open spec fn lookup(m: Seq<(Seq<char>, Origin)>, k: Seq<char>) -> Option<Origin>
    decreases m.len(),
{
    if m.len() == 0 {
        None
    } else {
        match lookup(m.drop_last(), k) {
            Some(o) => Some(o),
            None => if m.last().0 == k {
                Some(m.last().1)
            } else {
                None
            },
        }
    }
}

/// The page's entries, in order.
pub open spec fn page_part(p: Seq<Seq<char>>, i: int) -> Seq<(Seq<char>, Origin)>
    decreases i,
{
    if i <= 0 {
        Seq::empty()
    } else {
        page_part(p, i - 1).push((p[i - 1], Origin::Page((i - 1) as usize)))
    }
}

/// The defaults among the first `j` that the page does not override (each
/// id once, at its first occurrence).
pub open spec fn kept(d: Seq<Seq<char>>, p: Seq<Seq<char>>, j: int) -> Seq<(Seq<char>, Origin)>
    decreases j,
{
    if j <= 0 {
        Seq::empty()
    } else {
        let rest = kept(d, p, j - 1);
        if first_pos(p, d[j - 1]) is None && first_pos(d, d[j - 1]) == Some(j - 1) {
            rest.push((d[j - 1], Origin::Profile((j - 1) as usize)))
        } else {
            rest
        }
    }
}

/// The merged list: the page's entries, then the defaults it does not
/// override.
pub open spec fn merged_list(d: Seq<Seq<char>>, p: Seq<Seq<char>>) -> Seq<(Seq<char>, Origin)> {
    page_part(p, p.len() as int) + kept(d, p, d.len() as int)
}

/// The entry for `k` of defaults `d` merged under page `p`: the page's
/// wins.
pub open spec fn merged(d: Seq<Seq<char>>, p: Seq<Seq<char>>, k: Seq<char>) -> Option<Origin> {
    match first_pos(p, k) {
        Some(i) => Some(Origin::Page(i as usize)),
        None => match first_pos(d, k) {
            Some(j) => Some(Origin::Profile(j as usize)),
            None => None,
        },
    }
}

proof fn lemma_first_pos_bound(s: Seq<Seq<char>>, k: Seq<char>)
    ensures
        first_pos(s, k) matches Some(e) ==> 0 <= e < s.len() && s[e] == k,
    decreases s.len(),
{
    if s.len() > 0 {
        lemma_first_pos_bound(s.drop_last(), k);
    }
}

proof fn lemma_page_part_lookup(p: Seq<Seq<char>>, k: Seq<char>, i: int)
    requires
        0 <= i <= p.len(),
    ensures
        lookup(page_part(p, i), k) == match first_pos(p.subrange(0, i), k) {
            Some(e) => Some(Origin::Page(e as usize)),
            None => None,
        },
        page_part(p, i).len() == i,
    decreases i,
{
    if i > 0 {
        lemma_page_part_lookup(p, k, i - 1);
        assert(p.subrange(0, i).drop_last() =~= p.subrange(0, i - 1));
        assert(page_part(p, i).drop_last() =~= page_part(p, i - 1));
    }
}

proof fn lemma_kept_lookup(d: Seq<Seq<char>>, p: Seq<Seq<char>>, k: Seq<char>, j: int)
    requires
        0 <= j <= d.len(),
        first_pos(p, k) is None,
    ensures
        lookup(kept(d, p, j), k) == match first_pos(d, k) {
            Some(e) => if e < j {
                Some(Origin::Profile(e as usize))
            } else {
                None
            },
            None => None,
        },
    decreases j,
{
    lemma_first_pos_bound(d, k);
    if j > 0 {
        lemma_kept_lookup(d, p, k, j - 1);
        let rest = kept(d, p, j - 1);
        if first_pos(p, d[j - 1]) is None && first_pos(d, d[j - 1]) == Some(j - 1) {
            assert(rest.push((d[j - 1], Origin::Profile((j - 1) as usize))).drop_last() =~= rest);
        }
    }
}

proof fn lemma_lookup_concat(a: Seq<(Seq<char>, Origin)>, b: Seq<(Seq<char>, Origin)>, k: Seq<char>)
    ensures
        lookup(a + b, k) == match lookup(a, k) {
            Some(o) => Some(o),
            None => lookup(b, k),
        },
    decreases b.len(),
{
    if b.len() == 0 {
        assert(a + b =~= a);
    } else {
        lemma_lookup_concat(a, b.drop_last(), k);
        assert((a + b).drop_last() =~= a + b.drop_last());
    }
}

/// The page wins per id: in the merged list, an id the page defines is the
/// page's entry, any other id is the profile default's, and ids of neither
/// are absent.
pub proof fn lemma_merge_page_wins(d: Seq<Seq<char>>, p: Seq<Seq<char>>, k: Seq<char>)
    ensures
        lookup(merged_list(d, p), k) == merged(d, p, k),
{
    lemma_lookup_concat(page_part(p, p.len() as int), kept(d, p, d.len() as int), k);
    lemma_page_part_lookup(p, k, p.len() as int);
    assert(p.subrange(0, p.len() as int) =~= p);
    lemma_first_pos_bound(d, k);
    if first_pos(p, k) is None {
        lemma_kept_lookup(d, p, k, d.len() as int);
    }
}

proof fn lemma_first_pos_none(s: Seq<Seq<char>>, k: Seq<char>)
    ensures
        first_pos(s, k) is None ==> forall|i: int| 0 <= i < s.len() ==> s[i] != k,
    decreases s.len(),
{
    if s.len() > 0 {
        lemma_first_pos_none(s.drop_last(), k);
        assert forall|i: int| 0 <= i < s.len() - 1 implies s.drop_last()[i] == s[i] by {}
    }
}

proof fn lemma_first_pos_le(s: Seq<Seq<char>>, k: Seq<char>, m: int)
    requires
        0 <= m < s.len(),
        s[m] == k,
    ensures
        first_pos(s, k) matches Some(e) && e <= m,
    decreases s.len(),
{
    if m < s.len() - 1 {
        lemma_first_pos_le(s.drop_last(), k, m);
    } else if first_pos(s.drop_last(), k) is Some {
        lemma_first_pos_bound(s.drop_last(), k);
    }
}

proof fn lemma_page_part_entries(p: Seq<Seq<char>>, i: int)
    requires
        0 <= i <= p.len(),
    ensures
        page_part(p, i).len() == i,
        forall|a: int| 0 <= a < i ==> #[trigger] page_part(p, i)[a] == (p[a], Origin::Page(a as usize)),
    decreases i,
{
    if i > 0 {
        lemma_page_part_entries(p, i - 1);
    }
}

proof fn lemma_kept_entries(d: Seq<Seq<char>>, p: Seq<Seq<char>>, j: int)
    requires
        0 <= j <= d.len(),
    ensures
        distinct_keys(kept(d, p, j)),
        forall|a: int| 0 <= a < kept(d, p, j).len() ==> (#[trigger] kept(d, p, j)[a]).1 is Profile
            && first_pos(p, kept(d, p, j)[a].0) is None,
    decreases j,
{
    if j > 0 {
        lemma_kept_entries(d, p, j - 1);
        let rest = kept(d, p, j - 1);
        let k = d[j - 1];
        if first_pos(p, k) is None && first_pos(d, k) == Some(j - 1) {
            lemma_kept_keys_before(d, p, j - 1);
            lemma_first_pos_none(d, k);
            let n = rest.push((k, Origin::Profile((j - 1) as usize)));
            assert forall|a: int, b: int| 0 <= a < b < n.len() implies #[trigger] n[a].0
                != #[trigger] n[b].0 by {
                if b == n.len() - 1 {
                    assert(n[a] == rest[a]);
                    let w = choose|w: int| 0 <= w < j - 1 && #[trigger] rest[a].0 == d[w];
                    if d[w] == k {
                        lemma_first_pos_le(d, k, w);
                    }
                } else {
                    assert(n[a] == rest[a]);
                    assert(n[b] == rest[b]);
                }
            }
            assert forall|a: int| 0 <= a < n.len() implies (#[trigger] n[a]).1 is Profile
                && first_pos(p, n[a].0) is None by {
                if a < rest.len() {
                    assert(n[a] == rest[a]);
                }
            }
        }
    }
}

proof fn lemma_kept_keys_before(d: Seq<Seq<char>>, p: Seq<Seq<char>>, j: int)
    requires
        0 <= j <= d.len(),
    ensures
        forall|a: int| 0 <= a < kept(d, p, j).len() ==> exists|m: int|
            0 <= m < j && #[trigger] kept(d, p, j)[a].0 == d[m],
    decreases j,
{
    if j > 0 {
        lemma_kept_keys_before(d, p, j - 1);
        let rest = kept(d, p, j - 1);
        let n = kept(d, p, j);
        assert forall|a: int| 0 <= a < n.len() implies exists|m: int|
            0 <= m < j && #[trigger] n[a].0 == d[m] by {
            if a < rest.len() {
                assert(n[a] == rest[a]);
                let m = choose|m: int| 0 <= m < j - 1 && rest[a].0 == d[m];
                assert(0 <= m < j && n[a].0 == d[m]);
            } else {
                assert(n[a].0 == d[j - 1]);
            }
        }
    }
}

/// Where the page holds each id once, the merged list holds each id once.
pub proof fn lemma_merge_distinct(d: Seq<Seq<char>>, p: Seq<Seq<char>>)
    requires
        forall|i: int, j: int| 0 <= i < j < p.len() ==> p[i] != p[j],
    ensures
        distinct_keys(merged_list(d, p)),
{
    let a = page_part(p, p.len() as int);
    let b = kept(d, p, d.len() as int);
    lemma_page_part_entries(p, p.len() as int);
    lemma_kept_entries(d, p, d.len() as int);
    let m = a + b;
    assert forall|x: int, y: int| 0 <= x < y < m.len() implies #[trigger] m[x].0
        != #[trigger] m[y].0 by {
        if y < a.len() {
            assert(m[x] == a[x]);
            assert(m[y] == a[y]);
        } else if x >= a.len() {
            assert(m[x] == b[x - a.len()]);
            assert(m[y] == b[y - a.len()]);
        } else {
            assert(m[x] == a[x]);
            assert(m[y] == b[y - a.len()]);
            lemma_first_pos_none(p, b[y - a.len()].0);
            assert(first_pos(p, b[y - a.len()].0) is None);
        }
    }
}

/// A merged list as plain keys and origins.
pub open spec fn origins_view(m: Seq<(String, Origin)>) -> Seq<(Seq<char>, Origin)> {
    m.map_values(|e: (String, Origin)| (e.0@, e.1))
}

/// Merge inherited defaults with page entries: the page's entries, then the
/// defaults it does not override. See `lemma_merge_page_wins`.
pub fn merge<T>(defaults: &Vec<(String, T)>, page: &Vec<(String, T)>) -> (r: Vec<(String, Origin)>)
    ensures
        origins_view(r@) == merged_list(keys_of(defaults@), keys_of(page@)),
{
    let ghost dk = keys_of(defaults@);
    let ghost pk = keys_of(page@);
    let mut r: Vec<(String, Origin)> = Vec::new();
    let mut i: usize = 0;
    while i < page.len()
        invariant
            i <= page@.len(),
            pk == keys_of(page@),
            origins_view(r@) == page_part(pk, i as int),
        decreases page@.len() - i,
    {
        let ghost before = r@;
        r.push((page[i].0.clone(), Origin::Page(i)));
        assert(origins_view(r@) =~= origins_view(before).push((pk[i as int], Origin::Page(i))));
        i = i + 1;
    }
    let mut j: usize = 0;
    while j < defaults.len()
        invariant
            j <= defaults@.len(),
            pk == keys_of(page@),
            dk == keys_of(defaults@),
            origins_view(r@) == page_part(pk, pk.len() as int) + kept(dk, pk, j as int),
        decreases defaults@.len() - j,
    {
        let key = &defaults[j].0;
        let in_page = find(page, key);
        let first = find(defaults, key);
        proof {
            lemma_first_pos_keys(page@, key@);
            lemma_first_pos_keys(defaults@, key@);
            assert(dk[j as int] == key@);
        }
        let keep = in_page.is_none() && match first {
            Some(f) => f == j,
            None => false,
        };
        if keep {
            let ghost before = r@;
            r.push((key.clone(), Origin::Profile(j)));
            assert(origins_view(r@) =~= origins_view(before).push((dk[j as int], Origin::Profile(j))));
        }
        j = j + 1;
    }
    r
}

// ---------------------------------------------------------------------------
// The controller
// ---------------------------------------------------------------------------

/// The kinds of pushable input, each with its own pressed flags.
#[derive(Debug, Clone, Copy, PartialEq, Eq, Structural)]
pub enum Input {
    Key,
    Enc,
    Btn,
}

/// How many inputs of a kind the deck has.
pub open spec fn input_count(kind: Input) -> nat {
    match kind {
        Input::Key => 12,
        Input::Enc => 6,
        Input::Btn => 8,
    }
}

/// A surface that shows text, tracked for redraws. Side strips are tracked
/// as a whole.
#[derive(Debug, Clone, Copy, PartialEq, Eq, Structural)]
pub enum Surface {
    Key(u8),
    Left,
    Right,
}

/// What the caller must do for an input.
#[derive(Debug)]
pub enum Effect {
    /// Tap the command with this name (resolving its id first).
    RunCommand(String),
    /// Write `value` (the bit pattern of an `f64`) to the named dataref.
    SetDataref { name: String, value: u64 },
}

/// An effect as plain values.
pub enum EffectView {
    RunCommand(Seq<char>),
    SetDataref(Seq<char>, u64),
}

/// The plain view of an effect.
pub open spec fn effect_view(e: Effect) -> EffectView {
    match e {
        Effect::RunCommand(c) => EffectView::RunCommand(c@),
        Effect::SetDataref { name, value } => EffectView::SetDataref(name@, value),
    }
}

/// The kind of tile a key draws.
#[derive(Debug, Clone, Copy)]
pub enum DrawKind {
    /// An icon glyph, with the text as an optional label.
    Icon(char),
    /// An annunciator lit in this colour when its value is at least 0.5.
    Annunciator(Rgb),
    /// A label and a value.
    Text,
}

/// The id of encoder or LED `i`: `e3`, `b0`, ...
pub open spec fn id_name(prefix: char, i: nat) -> Seq<char> {
    seq![prefix] + decimal(i)
}

/// The position of the first key entry for index `k`.
pub open spec fn key_pos(keys: Seq<(u8, Key)>, k: u8) -> Option<int>
    decreases keys.len(),
{
    if keys.len() == 0 {
        None
    } else {
        match key_pos(keys.drop_last(), k) {
            Some(i) => Some(i),
            None => if keys.last().0 == k {
                Some(keys.len() - 1)
            } else {
                None
            },
        }
    }
}

/// The position of the first entry of an association list for `k`.
pub open spec fn assoc_pos<K, V>(m: Seq<(K, V)>, k: K) -> Option<int>
    decreases m.len(),
{
    if m.len() == 0 {
        None
    } else {
        match assoc_pos(m.drop_last(), k) {
            Some(i) => Some(i),
            None => if m.last().0 == k {
                Some(m.len() - 1)
            } else {
                None
            },
        }
    }
}

/// The first entry of an association list for `k`.
pub open spec fn assoc<K, V>(m: Seq<(K, V)>, k: K) -> Option<V> {
    match assoc_pos(m, k) {
        Some(i) => Some(m[i].1),
        None => None,
    }
}

proof fn lemma_assoc_pos<K, V>(m: Seq<(K, V)>, k: K)
    ensures
        assoc_pos(m, k) matches Some(i) ==> 0 <= i < m.len() && m[i].0 == k && forall|j: int|
            0 <= j < i ==> m[j].0 != k,
        assoc_pos(m, k) is None ==> forall|j: int| 0 <= j < m.len() ==> m[j].0 != k,
    decreases m.len(),
{
    if m.len() > 0 {
        let p = m.drop_last();
        lemma_assoc_pos(p, k);
        assert forall|j: int| 0 <= j < p.len() implies p[j] == m[j] by {}
    }
}

proof fn lemma_assoc_pos_unique<K, V>(m: Seq<(K, V)>, k: K, r: Option<int>)
    requires
        r matches Some(i) ==> 0 <= i < m.len() && m[i].0 == k && forall|j: int|
            0 <= j < i ==> m[j].0 != k,
        r is None ==> forall|j: int| 0 <= j < m.len() ==> m[j].0 != k,
    ensures
        assoc_pos(m, k) == r,
    decreases m.len(),
{
    if m.len() > 0 {
        match r {
            Some(i) => if i < m.len() - 1 {
                lemma_assoc_pos_unique(m.drop_last(), k, Some(i));
            } else {
                lemma_assoc_pos_unique(m.drop_last(), k, None);
            },
            None => lemma_assoc_pos_unique(m.drop_last(), k, None),
        }
    }
}

/// No key occurs twice in an association list.
pub open spec fn distinct_keys<K, V>(m: Seq<(K, V)>) -> bool {
    forall|i: int, j: int| 0 <= i < j < m.len() ==> #[trigger] m[i].0 != #[trigger] m[j].0
}

proof fn lemma_distinct_replace<K, V>(m: Seq<(K, V)>, i: int, k: K, v: V)
    requires
        distinct_keys(m),
        0 <= i < m.len(),
        m[i].0 == k,
    ensures
        distinct_keys(m.update(i, (k, v))),
{
    let n = m.update(i, (k, v));
    assert forall|a: int, b: int| 0 <= a < b < n.len() implies #[trigger] n[a].0 != #[trigger] n[b].0 by {
        assert(n[a].0 == m[a].0);
        assert(n[b].0 == m[b].0);
    }
}

proof fn lemma_distinct_add<K, V>(m: Seq<(K, V)>, k: K, v: V)
    requires
        distinct_keys(m),
        assoc_pos(m, k) is None,
    ensures
        distinct_keys(m.push((k, v))),
{
    lemma_assoc_pos(m, k);
    let n = m.push((k, v));
    assert forall|a: int, b: int| 0 <= a < b < n.len() implies #[trigger] n[a].0 != #[trigger] n[b].0 by {
        assert(n[a] == m[a]);
        if b < m.len() {
            assert(n[b] == m[b]);
        }
    }
}

/// Replacing the entry for `k` changes what `k` maps to and nothing else.
proof fn lemma_assoc_replace<K, V>(m: Seq<(K, V)>, i: int, k: K, v: V)
    requires
        assoc_pos(m, k) == Some(i),
    ensures
        forall|q: K| #[trigger] assoc(m.update(i, (k, v)), q) == if q == k {
            Some(v)
        } else {
            assoc(m, q)
        },
{
    let n = m.update(i, (k, v));
    lemma_assoc_pos(m, k);
    assert forall|q: K| #[trigger] assoc(n, q) == if q == k {
        Some(v)
    } else {
        assoc(m, q)
    } by {
        lemma_assoc_pos(m, q);
        if q == k {
            lemma_assoc_pos_unique(n, q, Some(i));
        } else {
            match assoc_pos(m, q) {
                Some(p) => {
                    assert forall|j: int| 0 <= j < p implies n[j].0 != q by {
                        assert(n[j].0 == m[j].0 || n[j].0 == k);
                    }
                    lemma_assoc_pos_unique(n, q, Some(p));
                },
                None => {
                    assert forall|j: int| 0 <= j < n.len() implies n[j].0 != q by {
                        assert(n[j].0 == m[j].0 || n[j].0 == k);
                    }
                    lemma_assoc_pos_unique(n, q, None);
                },
            }
        }
    }
}

/// Adding an entry for a new `k` maps `k` and changes nothing else.
proof fn lemma_assoc_add<K, V>(m: Seq<(K, V)>, k: K, v: V)
    requires
        assoc_pos(m, k) is None,
    ensures
        forall|q: K| #[trigger] assoc(m.push((k, v)), q) == if q == k {
            Some(v)
        } else {
            assoc(m, q)
        },
{
    let n = m.push((k, v));
    lemma_assoc_pos(m, k);
    assert forall|q: K| #[trigger] assoc(n, q) == if q == k {
        Some(v)
    } else {
        assoc(m, q)
    } by {
        lemma_assoc_pos(m, q);
        if q == k {
            lemma_assoc_pos_unique(n, q, Some(m.len() as int));
        } else {
            match assoc_pos(m, q) {
                Some(p) => {
                    lemma_assoc_pos_unique(n, q, Some(p));
                },
                None => {
                    lemma_assoc_pos_unique(n, q, None);
                },
            }
        }
    }
}

/// The names of a cache, with what each resolved to.
pub open spec fn cache_view(m: Seq<(String, Option<i64>)>) -> Seq<(Seq<char>, Option<i64>)> {
    m.map_values(|e: (String, Option<i64>)| (e.0@, e.1))
}

/// The live values, by id.
pub open spec fn values_view(m: Seq<(i64, DataValue)>) -> Seq<(i64, DataValueView)> {
    m.map_values(|e: (i64, DataValue)| (e.0, e.1@))
}

/// The last text per tracked surface.
pub open spec fn shown_view(m: Seq<Option<String>>) -> Seq<Option<Seq<char>>> {
    m.map_values(
        |e: Option<String>|
            match e {
                Some(s) => Some(s@),
                None => None,
            },
    )
}

/// The deck controller: the profile, the page shown, and what the running
/// deck remembers between events.
pub struct Deck {
    profile: Profile,
    current: usize,
    pending: Option<String>,
    eff_encoders: Vec<(String, Origin)>,
    eff_leds: Vec<(String, Origin)>,
    key_pressed: Vec<bool>,
    enc_pressed: Vec<bool>,
    btn_pressed: Vec<bool>,
    /// The text last drawn per key index (the device has keys 0..=11).
    last_keys: Vec<Option<String>>,
    last_left: Option<String>,
    last_right: Option<String>,
    values: Vec<(i64, DataValue)>,
    dr_ids: Vec<(String, Option<i64>)>,
    cmd_ids: Vec<(String, Option<i64>)>,
}

impl Deck {
    /// The profile the deck runs.
    pub closed spec fn spec_profile(&self) -> Profile {
        self.profile
    }

    /// The position of the page shown.
    pub closed spec fn page_index(&self) -> int {
        self.current as int
    }

    /// The page switch asked for by the last inputs, if any.
    pub closed spec fn pending(&self) -> Option<Seq<char>> {
        match self.pending {
            Some(p) => Some(p@),
            None => None,
        }
    }

    /// The effective encoders of the page shown.
    pub closed spec fn encoders_view(&self) -> Seq<(Seq<char>, Origin)> {
        origins_view(self.eff_encoders@)
    }

    /// The effective LEDs of the page shown.
    pub closed spec fn leds_view(&self) -> Seq<(Seq<char>, Origin)> {
        origins_view(self.eff_leds@)
    }

    /// Whether input `i` of a kind was last reported pressed.
    pub closed spec fn pressed(&self, kind: Input, i: int) -> bool {
        match kind {
            Input::Key => 0 <= i < self.key_pressed@.len() && self.key_pressed@[i],
            Input::Enc => 0 <= i < self.enc_pressed@.len() && self.enc_pressed@[i],
            Input::Btn => 0 <= i < self.btn_pressed@.len() && self.btn_pressed@[i],
        }
    }

    /// The text a surface last showed, if it was drawn since the page loaded.
    pub closed spec fn shown(&self, s: Surface) -> Option<Seq<char>> {
        match s {
            Surface::Key(i) => shown_view(self.last_keys@)[i as int],
            Surface::Left => match self.last_left {
                Some(t) => Some(t@),
                None => None,
            },
            Surface::Right => match self.last_right {
                Some(t) => Some(t@),
                None => None,
            },
        }
    }

    /// The live value of a dataref id.
    pub closed spec fn value_of(&self, id: i64) -> Option<DataValueView> {
        assoc(values_view(self.values@), id)
    }

    /// What a dataref name resolved to, if it was looked up.
    pub closed spec fn dataref_cached(&self, name: Seq<char>) -> Option<Option<i64>> {
        assoc(cache_view(self.dr_ids@), name)
    }

    /// What a command name resolved to, if it was looked up.
    pub closed spec fn command_cached(&self, name: Seq<char>) -> Option<Option<i64>> {
        assoc(cache_view(self.cmd_ids@), name)
    }

    /// The page shown.
    pub open spec fn page(&self) -> Page {
        self.spec_profile().pages@[self.page_index()].1
    }

    /// The deck is consistent: its profile is accepted, the page shown
    /// exists, its effective encoders and LEDs are the merge of the defaults
    /// under it, there is one pressed flag per input and one tracked text
    /// per key index, and the live values and the id caches hold each key once.
    pub closed spec fn wf(&self) -> bool {
        &&& distinct_keys(values_view(self.values@))
        &&& distinct_keys(cache_view(self.dr_ids@))
        &&& distinct_keys(cache_view(self.cmd_ids@))
        &&& spec_validate(self.profile) is None
        &&& self.current < self.profile.pages@.len()
        &&& self.key_pressed@.len() == 12
        &&& self.enc_pressed@.len() == 6
        &&& self.btn_pressed@.len() == 8
        &&& self.last_keys@.len() == 256
        &&& origins_view(self.eff_encoders@) == merged_list(
            keys_of(self.profile.encoders@),
            keys_of(self.profile.pages@[self.current as int].1.encoders@),
        )
        &&& origins_view(self.eff_leds@) == merged_list(
            keys_of(self.profile.leds@),
            keys_of(self.profile.pages@[self.current as int].1.leds@),
        )
    }
}

/// Look `name` up in a cache.
fn cache_get(m: &Vec<(String, Option<i64>)>, name: &str) -> (r: Option<Option<i64>>)
    ensures
        r == assoc(cache_view(m@), name@),
{
    let key = String::from_str(name);
    let ghost v = cache_view(m@);
    let mut i: usize = 0;
    while i < m.len()
        invariant
            i <= m@.len(),
            v == cache_view(m@),
            key@ == name@,
            forall|j: int| 0 <= j < i ==> v[j].0 != name@,
        decreases m@.len() - i,
    {
        if m[i].0 == key {
            proof {
                lemma_assoc_pos_unique(v, name@, Some(i as int));
            }
            return Some(m[i].1);
        }
        i = i + 1;
    }
    proof {
        lemma_assoc_pos_unique(v, name@, None);
    }
    None
}

/// The position of `name` in a cache.
fn cache_pos(m: &Vec<(String, Option<i64>)>, name: &String) -> (r: Option<usize>)
    ensures
        match r {
            Some(i) => assoc_pos(cache_view(m@), name@) == Some(i as int),
            None => assoc_pos(cache_view(m@), name@) is None,
        },
{
    let ghost v = cache_view(m@);
    let mut i: usize = 0;
    while i < m.len()
        invariant
            i <= m@.len(),
            v == cache_view(m@),
            forall|j: int| 0 <= j < i ==> v[j].0 != name@,
        decreases m@.len() - i,
    {
        if m[i].0 == *name {
            proof {
                lemma_assoc_pos_unique(v, name@, Some(i as int));
            }
            return Some(i);
        }
        i = i + 1;
    }
    proof {
        lemma_assoc_pos_unique(v, name@, None);
    }
    None
}

/// Record what `name` resolved to in a cache.
fn cache_put(m: &mut Vec<(String, Option<i64>)>, name: String, id: Option<i64>)
    ensures
        forall|q: Seq<char>| #[trigger] assoc(cache_view(final(m)@), q) == if q == name@ {
            Some(id)
        } else {
            assoc(cache_view(old(m)@), q)
        },
        distinct_keys(cache_view(old(m)@)) ==> distinct_keys(cache_view(final(m)@)),
{
    let ghost v = cache_view(m@);
    let ghost nv = name@;
    match cache_pos(m, &name) {
        Some(i) => {
            proof {
                lemma_assoc_pos(v, nv);
                lemma_assoc_replace(v, i as int, nv, id);
                if distinct_keys(v) {
                    lemma_distinct_replace(v, i as int, nv, id);
                }
            }
            m.set(i, (name, id));
            assert(cache_view(m@) =~= v.update(i as int, (nv, id)));
        },
        None => {
            proof {
                lemma_assoc_add(v, nv, id);
                if distinct_keys(v) {
                    lemma_distinct_add(v, nv, id);
                }
            }
            m.push((name, id));
            assert(cache_view(m@) =~= v.push((nv, id)));
        },
    }
}

/// The position of `id` among the live values.
fn value_pos(m: &Vec<(i64, DataValue)>, id: i64) -> (r: Option<usize>)
    ensures
        match r {
            Some(i) => assoc_pos(values_view(m@), id) == Some(i as int),
            None => assoc_pos(values_view(m@), id) is None,
        },
{
    let ghost v = values_view(m@);
    let mut i: usize = 0;
    while i < m.len()
        invariant
            i <= m@.len(),
            v == values_view(m@),
            forall|j: int| 0 <= j < i ==> v[j].0 != id,
        decreases m@.len() - i,
    {
        if m[i].0 == id {
            proof {
                lemma_assoc_pos_unique(v, id, Some(i as int));
            }
            return Some(i);
        }
        i = i + 1;
    }
    proof {
        lemma_assoc_pos_unique(v, id, None);
    }
    None
}

/// Whether `id` is among `ids`.
pub fn contains_id(ids: &Vec<i64>, id: i64) -> (r: bool)
    ensures
        r == ids@.contains(id),
{
    let mut i: usize = 0;
    while i < ids.len()
        invariant
            i <= ids@.len(),
            forall|j: int| 0 <= j < i ==> ids@[j] != id,
        decreases ids@.len() - i,
    {
        if ids[i] == id {
            return true;
        }
        i = i + 1;
    }
    false
}

/// Append `id` unless it is already there: each dataref is subscribed once.
pub fn push_unique(ids: &mut Vec<i64>, id: i64)
    ensures
        final(ids)@ == if old(ids)@.contains(id) {
            old(ids)@
        } else {
            old(ids)@.push(id)
        },
{
    if !contains_id(ids, id) {
        ids.push(id);
    }
}

/// The ids to subscribe for a page: the references that resolved, each
/// once, in the order first seen.
pub open spec fn spec_subscription(resolved: Seq<Option<i64>>) -> Seq<i64>
    decreases resolved.len(),
{
    if resolved.len() == 0 {
        Seq::empty()
    } else {
        let rest = spec_subscription(resolved.drop_last());
        match resolved.last() {
            Some(id) => if rest.contains(id) {
                rest
            } else {
                rest.push(id)
            },
            None => rest,
        }
    }
}

/// The ids to subscribe, given what each displayed reference resolved to.
pub fn subscription(resolved: &Vec<Option<i64>>) -> (ids: Vec<i64>)
    ensures
        ids@ == spec_subscription(resolved@),
{
    let mut ids: Vec<i64> = Vec::new();
    let mut i: usize = 0;
    while i < resolved.len()
        invariant
            i <= resolved@.len(),
            ids@ == spec_subscription(resolved@.subrange(0, i as int)),
        decreases resolved@.len() - i,
    {
        assert(resolved@.subrange(0, i + 1).drop_last() =~= resolved@.subrange(0, i as int));
        if let Some(id) = resolved[i] {
            push_unique(&mut ids, id);
        }
        i = i + 1;
    }
    assert(resolved@.subrange(0, resolved@.len() as int) =~= resolved@);
    ids
}

/// Each dataref is subscribed once: the subscription holds every resolved
/// id, nothing else, and no id twice.
pub proof fn lemma_subscription_distinct(resolved: Seq<Option<i64>>)
    ensures
        forall|id: i64| #[trigger] spec_subscription(resolved).contains(id) <==> resolved.contains(
            Some(id),
        ),
        forall|i: int, j: int|
            0 <= i < j < spec_subscription(resolved).len() ==> spec_subscription(resolved)[i]
                != spec_subscription(resolved)[j],
    decreases resolved.len(),
{
    if resolved.len() > 0 {
        let p = resolved.drop_last();
        lemma_subscription_distinct(p);
        let rest = spec_subscription(p);
        let last = resolved.last();
        let n = resolved.len() - 1;
        assert forall|id: i64| #[trigger] spec_subscription(resolved).contains(id) <==> resolved.contains(
            Some(id),
        ) by {
            if resolved.contains(Some(id)) {
                let k = choose|k: int| 0 <= k < resolved.len() && resolved[k] == Some(id);
                if k < n {
                    assert(p[k] == Some(id));
                    assert(p.contains(Some(id)));
                }
            }
            if p.contains(Some(id)) {
                let k = choose|k: int| 0 <= k < p.len() && p[k] == Some(id);
                assert(resolved[k] == Some(id));
            }
            if last == Some(id) {
                assert(resolved[n] == Some(id));
            }
            if let Some(x) = last {
                if !rest.contains(x) {
                    let t = rest.push(x);
                    if t.contains(id) {
                        let k = choose|k: int| 0 <= k < t.len() && t[k] == id;
                        if k < rest.len() {
                            assert(t[k] == rest[k]);
                            assert(rest.contains(id));
                        }
                    }
                    if rest.contains(id) {
                        let k = choose|k: int| 0 <= k < rest.len() && rest[k] == id;
                        assert(t[k] == rest[k]);
                    }
                    if id == x {
                        assert(t[rest.len() as int] == x);
                    }
                }
            }
        }
        if let Some(x) = last {
            if !rest.contains(x) {
                let t = rest.push(x);
                assert forall|i: int, j: int| 0 <= i < j < t.len() implies t[i] != t[j] by {
                    assert(t[i] == rest[i]);
                    if j < rest.len() {
                        assert(t[j] == rest[j]);
                    }
                }
            }
        }
    }
}

impl Deck {
    /// What a dataref name resolved to, if it was looked up before.
    pub fn cached_dataref_id(&self, name: &str) -> (r: Option<Option<i64>>)
        ensures
            r == self.dataref_cached(name@),
    {
        cache_get(&self.dr_ids, name)
    }

    /// Record what a dataref name resolved to; it is not looked up again.
    pub fn remember_dataref_id(&mut self, name: String, id: Option<i64>)
        requires
            old(self).wf(),
        ensures
            final(self).wf(),
            final(self).dataref_cached(name@) == Some(id),
            forall|q: Seq<char>| q != name@ ==> #[trigger] final(self).dataref_cached(q) == old(
                self,
            ).dataref_cached(q),
            forall|q: Seq<char>| #[trigger] final(self).command_cached(q) == old(self).command_cached(q),
            forall|i: i64| #[trigger] final(self).value_of(i) == old(self).value_of(i),
            final(self).spec_profile() == old(self).spec_profile(),
            final(self).page_index() == old(self).page_index(),
            final(self).pending() == old(self).pending(),
            final(self).encoders_view() == old(self).encoders_view(),
            final(self).leds_view() == old(self).leds_view(),
            forall|k: Input, i: int| #[trigger] final(self).pressed(k, i) == old(self).pressed(k, i),
            forall|t: Surface| #[trigger] final(self).shown(t) == old(self).shown(t),
    {
        let ghost nv = name@;
        cache_put(&mut self.dr_ids, name, id);
        assert(self.dataref_cached(nv) == Some(id));
    }

    /// What a command name resolved to, if it was looked up before.
    pub fn cached_command_id(&self, name: &str) -> (r: Option<Option<i64>>)
        ensures
            r == self.command_cached(name@),
    {
        cache_get(&self.cmd_ids, name)
    }

    /// Record what a command name resolved to; it is not looked up again.
    pub fn remember_command_id(&mut self, name: String, id: Option<i64>)
        requires
            old(self).wf(),
        ensures
            final(self).wf(),
            final(self).command_cached(name@) == Some(id),
            forall|q: Seq<char>| q != name@ ==> #[trigger] final(self).command_cached(q) == old(
                self,
            ).command_cached(q),
            forall|q: Seq<char>| #[trigger] final(self).dataref_cached(q) == old(self).dataref_cached(q),
            forall|i: i64| #[trigger] final(self).value_of(i) == old(self).value_of(i),
            final(self).spec_profile() == old(self).spec_profile(),
            final(self).page_index() == old(self).page_index(),
            final(self).pending() == old(self).pending(),
            final(self).encoders_view() == old(self).encoders_view(),
            final(self).leds_view() == old(self).leds_view(),
            forall|k: Input, i: int| #[trigger] final(self).pressed(k, i) == old(self).pressed(k, i),
            forall|t: Surface| #[trigger] final(self).shown(t) == old(self).shown(t),
    {
        let ghost nv = name@;
        cache_put(&mut self.cmd_ids, name, id);
        assert(self.command_cached(nv) == Some(id));
    }

    /// Take in a live value: the id now reads this value.
    pub fn apply_update(&mut self, u: Update)
        requires
            old(self).wf(),
        ensures
            final(self).wf(),
            final(self).value_of(u.id) == Some(u.value@),
            forall|i: i64| i != u.id ==> #[trigger] final(self).value_of(i) == old(self).value_of(i),
            forall|q: Seq<char>| #[trigger] final(self).dataref_cached(q) == old(self).dataref_cached(q),
            final(self).spec_profile() == old(self).spec_profile(),
            final(self).page_index() == old(self).page_index(),
            final(self).pending() == old(self).pending(),
            forall|q: Seq<char>| #[trigger] final(self).command_cached(q) == old(self).command_cached(q),
            final(self).encoders_view() == old(self).encoders_view(),
            final(self).leds_view() == old(self).leds_view(),
            forall|k: Input, i: int| #[trigger] final(self).pressed(k, i) == old(self).pressed(k, i),
            forall|t: Surface| #[trigger] final(self).shown(t) == old(self).shown(t),
    {
        let ghost v = values_view(self.values@);
        let ghost uv = u.value@;
        let id = u.id;
        match value_pos(&self.values, id) {
            Some(i) => {
                proof {
                    lemma_assoc_pos(v, id);
                    lemma_assoc_replace(v, i as int, id, uv);
                    lemma_distinct_replace(v, i as int, id, uv);
                }
                self.values.set(i, (id, u.value));
                assert(values_view(self.values@) =~= v.update(i as int, (id, uv)));
            },
            None => {
                proof {
                    lemma_assoc_add(v, id, uv);
                    lemma_distinct_add(v, id, uv);
                }
                self.values.push((id, u.value));
                assert(values_view(self.values@) =~= v.push((id, uv)));
            },
        }
    }

    /// The live value of a dataref id, if one arrived.
    pub fn value(&self, id: i64) -> (r: Option<&DataValue>)
        ensures
            match r {
                Some(d) => self.value_of(id) == Some(d@),
                None => self.value_of(id) is None,
            },
    {
        let ghost v = values_view(self.values@);
        let mut i: usize = 0;
        while i < self.values.len()
            invariant
                i <= self.values@.len(),
                v == values_view(self.values@),
                forall|j: int| 0 <= j < i ==> v[j].0 != id,
            decreases self.values@.len() - i,
        {
            if self.values[i].0 == id {
                proof {
                    lemma_assoc_pos_unique(v, id, Some(i as int));
                }
                return Some(&self.values[i].1);
            }
            i = i + 1;
        }
        proof {
            lemma_assoc_pos_unique(v, id, None);
        }
        None
    }

    /// Whether `content` differs from what surface `s` last showed (or it
    /// has not been drawn since the page loaded).
    pub fn needs_redraw(&self, s: Surface, content: &String) -> (r: bool)
        requires
            self.wf(),
        ensures
            r == (self.shown(s) != Some(content@)),
    {
        match s {
            Surface::Key(i) => {
                match &self.last_keys[i as usize] {
                    Some(t) => *t != *content,
                    None => true,
                }
            },
            Surface::Left => match &self.last_left {
                Some(t) => *t != *content,
                None => true,
            },
            Surface::Right => match &self.last_right {
                Some(t) => *t != *content,
                None => true,
            },
        }
    }

    /// Record that surface `s` now shows `content`.
    pub fn mark_drawn(&mut self, s: Surface, content: String)
        requires
            old(self).wf(),
        ensures
            final(self).wf(),
            final(self).shown(s) == Some(content@),
            forall|t: Surface| t != s ==> #[trigger] final(self).shown(t) == old(self).shown(t),
            final(self).spec_profile() == old(self).spec_profile(),
            final(self).page_index() == old(self).page_index(),
            final(self).pending() == old(self).pending(),
            final(self).encoders_view() == old(self).encoders_view(),
            final(self).leds_view() == old(self).leds_view(),
            forall|k: Input, i: int| #[trigger] final(self).pressed(k, i) == old(self).pressed(k, i),
            forall|v: i64| #[trigger] final(self).value_of(v) == old(self).value_of(v),
            forall|q: Seq<char>| #[trigger] final(self).dataref_cached(q) == old(self).dataref_cached(q),
            forall|q: Seq<char>| #[trigger] final(self).command_cached(q) == old(self).command_cached(q),
    {
        let ghost cv = content@;
        match s {
            Surface::Key(i) => {
                self.last_keys.set(i as usize, Some(content));
                assert(shown_view(self.last_keys@) =~= shown_view(old(self).last_keys@).update(
                    i as int,
                    Some(cv),
                ));
            },
            Surface::Left => {
                self.last_left = Some(content);
            },
            Surface::Right => {
                self.last_right = Some(content);
            },
        }
    }
}

/// A merged list's lookup is the first entry for the id.
proof fn lemma_lookup_origins(m: Seq<(String, Origin)>, k: Seq<char>)
    ensures
        lookup(origins_view(m), k) == match index_of(m, k) {
            Some(i) => Some(m[i].1),
            None => None,
        },
    decreases m.len(),
{
    if m.len() > 0 {
        assert(origins_view(m).drop_last() =~= origins_view(m.drop_last()));
        lemma_lookup_origins(m.drop_last(), k);
        lemma_index_of(m.drop_last(), k);
    }
}

/// Origins in a merged list point at existing entries.
proof fn lemma_merged_in_bounds<T>(d: Seq<(String, T)>, p: Seq<(String, T)>, k: Seq<char>)
    ensures
        lookup(merged_list(keys_of(d), keys_of(p)), k) matches Some(o) ==> match o {
            Origin::Page(i) => i < p.len(),
            Origin::Profile(j) => j < d.len(),
        },
{
    lemma_merge_page_wins(keys_of(d), keys_of(p), k);
    lemma_first_pos_bound(keys_of(d), k);
    lemma_first_pos_bound(keys_of(p), k);
}

/// The position of the first key entry for `k`.
fn key_entry(keys: &Vec<(u8, Key)>, k: u8) -> (r: Option<usize>)
    ensures
        match r {
            Some(i) => key_pos(keys@, k) == Some(i as int) && i < keys@.len(),
            None => key_pos(keys@, k) is None,
        },
{
    let mut i: usize = 0;
    while i < keys.len()
        invariant
            i <= keys@.len(),
            key_pos(keys@.subrange(0, i as int), k) is None,
        decreases keys@.len() - i,
    {
        assert(keys@.subrange(0, i + 1).drop_last() =~= keys@.subrange(0, i as int));
        if keys[i].0 == k {
            proof {
                lemma_key_pos_prefix(keys@, k, i + 1);
            }
            return Some(i);
        }
        i = i + 1;
    }
    assert(keys@.subrange(0, keys@.len() as int) =~= keys@);
    None
}

proof fn lemma_key_pos_prefix(m: Seq<(u8, Key)>, k: u8, j: int)
    requires
        0 <= j <= m.len(),
        key_pos(m.subrange(0, j), k) is Some,
    ensures
        key_pos(m, k) == key_pos(m.subrange(0, j), k),
    decreases m.len() - j,
{
    if j < m.len() {
        assert(m.subrange(0, j + 1).drop_last() =~= m.subrange(0, j));
        lemma_key_pos_prefix(m, k, j + 1);
    } else {
        assert(m.subrange(0, j) =~= m);
    }
}

/// The string `prefix` followed by the decimal numeral of `i`.
fn id_string(prefix: char, i: u8) -> (r: String)
    ensures
        r@ == id_name(prefix, i as nat),
{
    let mut s = String::new();
    push_char(&mut s, prefix);
    push_decimal(&mut s, i as u64);
    assert(s@ =~= id_name(prefix, i as nat));
    s
}

impl Deck {
    /// Run `profile`: reject it if it is not valid, else start on its home
    /// page with nothing pressed, drawn, received or looked up.
    pub fn new(profile: Profile) -> (r: Result<Deck, ConfigError>)
        ensures
            match spec_validate(profile) {
                Some(e) => r == Err::<Deck, ConfigError>(e),
                None => r matches Ok(d) && d.wf() && d.spec_profile() == profile && index_of(
                    profile.pages@,
                    profile.home@,
                ) == Some(d.page_index()) && d.encoders_view() == merged_list(
                    keys_of(profile.encoders@),
                    keys_of(profile.pages@[d.page_index()].1.encoders@),
                ) && d.leds_view() == merged_list(
                    keys_of(profile.leds@),
                    keys_of(profile.pages@[d.page_index()].1.leds@),
                ) && d.pending() is None && (forall|s: Surface|
                    #[trigger] d.shown(s) is None) && (forall|k: Input, i: int|
                    0 <= i < input_count(k) ==> !#[trigger] d.pressed(k, i)) && (forall|id: i64|
                    #[trigger] d.value_of(id) is None) && (forall|n: Seq<char>|
                    #[trigger] d.dataref_cached(n) is None) && (forall|n: Seq<char>|
                    #[trigger] d.command_cached(n) is None),
            },
    {
        match profile.validate() {
            Err(e) => {
                return Err(e);
            },
            Ok(()) => {},
        }
        let home = match find(&profile.pages, &profile.home) {
            Some(i) => i,
            None => {
                proof {
                    lemma_index_of(profile.pages@, profile.home@);
                    let w = choose|w: int|
                        0 <= w < profile.pages@.len() && (#[trigger] profile.pages@[w]).0@
                            == profile.home@;
                    assert(profile.pages@[w].0@ != profile.home@);
                }
                return Err(ConfigError::UndefinedHome(profile.home));
            },
        };
        proof {
            lemma_index_of(profile.pages@, profile.home@);
        }
        let eff_encoders = merge(&profile.encoders, &profile.pages[home].1.encoders);
        let eff_leds = merge(&profile.leds, &profile.pages[home].1.leds);
        let key_pressed: Vec<bool> = vec![false, false, false, false, false, false, false, false, false, false, false, false];
        let mut last_keys: Vec<Option<String>> = Vec::new();
        let mut i: usize = 0;
        while i < 256
            invariant
                i <= 256,
                last_keys@.len() == i,
                forall|j: int| 0 <= j < i ==> last_keys@[j] is None,
            decreases 256 - i,
        {
            last_keys.push(None);
            i = i + 1;
        }
        let enc_pressed: Vec<bool> = vec![false, false, false, false, false, false];
        let btn_pressed: Vec<bool> = vec![false, false, false, false, false, false, false, false];
        let d = Deck {
            profile,
            current: home,
            pending: None,
            eff_encoders,
            eff_leds,
            key_pressed,
            enc_pressed,
            btn_pressed,
            last_keys,
            last_left: None,
            last_right: None,
            values: Vec::new(),
            dr_ids: Vec::new(),
            cmd_ids: Vec::new(),
        };
        proof {
            assert forall|s: Surface| #[trigger] d.shown(s) is None by {
                if let Surface::Key(k) = s {
                    assert(shown_view(d.last_keys@)[k as int] is None);
                }
            }
            assert forall|id: i64| #[trigger] d.value_of(id) is None by {
                assert(values_view(d.values@) =~= Seq::<(i64, DataValueView)>::empty());
            }
            assert forall|n: Seq<char>| #[trigger] d.dataref_cached(n) is None by {
                assert(cache_view(d.dr_ids@) =~= Seq::<(Seq<char>, Option<i64>)>::empty());
            }
            assert forall|n: Seq<char>| #[trigger] d.command_cached(n) is None by {
                assert(cache_view(d.cmd_ids@) =~= Seq::<(Seq<char>, Option<i64>)>::empty());
            }
        }
        Ok(d)
    }

    /// The name of the page shown.
    pub fn current_page_name(&self) -> (r: &String)
        requires
            self.wf(),
        ensures
            *r == self.spec_profile().pages@[self.page_index()].0,
    {
        &self.profile.pages[self.current].0
    }

    /// The profile the deck runs.
    pub fn profile(&self) -> (r: &Profile)
        ensures
            *r == self.spec_profile(),
    {
        &self.profile
    }

    /// Switch to page `name`: it becomes the page shown, its effective
    /// encoders and LEDs are merged anew, and every surface counts as not
    /// drawn. An unknown name changes nothing and gives `false`.
    pub fn load_page(&mut self, name: &String) -> (r: bool)
        requires
            old(self).wf(),
        ensures
            final(self).wf(),
            final(self).spec_profile() == old(self).spec_profile(),
            final(self).pending() == old(self).pending(),
            forall|k: Input, i: int| #[trigger] final(self).pressed(k, i) == old(self).pressed(k, i),
            forall|id: i64| #[trigger] final(self).value_of(id) == old(self).value_of(id),
            forall|n: Seq<char>| #[trigger] final(self).dataref_cached(n) == old(self).dataref_cached(
                n,
            ),
            forall|n: Seq<char>| #[trigger] final(self).command_cached(n) == old(self).command_cached(
                n,
            ),
            match index_of(old(self).spec_profile().pages@, name@) {
                Some(i) => r && final(self).page_index() == i && final(self).encoders_view()
                    == merged_list(
                    keys_of(old(self).spec_profile().encoders@),
                    keys_of(old(self).spec_profile().pages@[i].1.encoders@),
                ) && final(self).leds_view() == merged_list(
                    keys_of(old(self).spec_profile().leds@),
                    keys_of(old(self).spec_profile().pages@[i].1.leds@),
                ) && forall|s: Surface| #[trigger] final(self).shown(s) is None,
                None => !r && final(self).page_index() == old(self).page_index()
                    && final(self).encoders_view() == old(self).encoders_view()
                    && final(self).leds_view() == old(self).leds_view() && forall|s: Surface|
                    #[trigger] final(self).shown(s) == old(self).shown(s),
            },
    {
        let i = match find(&self.profile.pages, name) {
            Some(i) => i,
            None => {
                return false;
            },
        };
        proof {
            lemma_index_of(self.profile.pages@, name@);
        }
        let eff_encoders = merge(&self.profile.encoders, &self.profile.pages[i].1.encoders);
        let eff_leds = merge(&self.profile.leds, &self.profile.pages[i].1.leds);
        self.current = i;
        self.eff_encoders = eff_encoders;
        self.eff_leds = eff_leds;
        let mut k: usize = 0;
        while k < 256
            invariant
                k <= 256,
                self.last_keys@.len() == 256,
                forall|j: int| 0 <= j < k ==> self.last_keys@[j] is None,
                self.current == i,
                self.profile == old(self).profile,
                self.pending == old(self).pending,
                self.key_pressed == old(self).key_pressed,
                self.enc_pressed == old(self).enc_pressed,
                self.btn_pressed == old(self).btn_pressed,
                self.values == old(self).values,
                self.dr_ids == old(self).dr_ids,
                self.cmd_ids == old(self).cmd_ids,
                origins_view(self.eff_encoders@) == merged_list(
                    keys_of(self.profile.encoders@),
                    keys_of(self.profile.pages@[i as int].1.encoders@),
                ),
                origins_view(self.eff_leds@) == merged_list(
                    keys_of(self.profile.leds@),
                    keys_of(self.profile.pages@[i as int].1.leds@),
                ),
                i < self.profile.pages@.len(),
            decreases 256 - k,
        {
            self.last_keys.set(k, None);
            k = k + 1;
        }
        self.last_left = None;
        self.last_right = None;
        proof {
            assert forall|s: Surface| #[trigger] self.shown(s) is None by {
                if let Surface::Key(x) = s {
                    assert(shown_view(self.last_keys@)[x as int] is None);
                }
            }
        }
        true
    }

    /// Take the page switch that inputs asked for, if any.
    pub fn take_pending(&mut self) -> (r: Option<String>)
        requires
            old(self).wf(),
        ensures
            final(self).wf(),
            match r {
                Some(p) => old(self).pending() == Some(p@),
                None => old(self).pending() is None,
            },
            final(self).pending() is None,
            final(self).spec_profile() == old(self).spec_profile(),
            final(self).page_index() == old(self).page_index(),
            forall|s: Surface| #[trigger] final(self).shown(s) == old(self).shown(s),
            final(self).encoders_view() == old(self).encoders_view(),
            final(self).leds_view() == old(self).leds_view(),
            forall|k: Input, i: int| #[trigger] final(self).pressed(k, i) == old(self).pressed(k, i),
            forall|v: i64| #[trigger] final(self).value_of(v) == old(self).value_of(v),
            forall|q: Seq<char>| #[trigger] final(self).dataref_cached(q) == old(self).dataref_cached(q),
            forall|q: Seq<char>| #[trigger] final(self).command_cached(q) == old(self).command_cached(q),
    {
        let p = self.pending.take();
        p
    }

    /// Track a press state; true only on a not-pressed to pressed change.
    pub fn edge(&mut self, i: usize, pressed: bool, kind: Input) -> (rising: bool)
        requires
            old(self).wf(),
            i < input_count(kind),
        ensures
            final(self).wf(),
            rising == (pressed && !old(self).pressed(kind, i as int)),
            final(self).pressed(kind, i as int) == pressed,
            forall|k: Input, j: int|
                (k != kind || j != i) ==> #[trigger] final(self).pressed(k, j) == old(self).pressed(
                    k,
                    j,
                ),
            final(self).spec_profile() == old(self).spec_profile(),
            final(self).page_index() == old(self).page_index(),
            final(self).pending() == old(self).pending(),
            forall|s: Surface| #[trigger] final(self).shown(s) == old(self).shown(s),
            forall|id: i64| #[trigger] final(self).value_of(id) == old(self).value_of(id),
            forall|n: Seq<char>| #[trigger] final(self).dataref_cached(n) == old(self).dataref_cached(
                n,
            ),
            forall|n: Seq<char>| #[trigger] final(self).command_cached(n) == old(self).command_cached(
                n,
            ),
            final(self).encoders_view() == old(self).encoders_view(),
            final(self).leds_view() == old(self).leds_view(),
    {
        let state = match kind {
            Input::Key => self.key_pressed[i],
            Input::Enc => self.enc_pressed[i],
            Input::Btn => self.btn_pressed[i],
        };
        let rising = pressed && !state;
        match kind {
            Input::Key => self.key_pressed.set(i, pressed),
            Input::Enc => self.enc_pressed.set(i, pressed),
            Input::Btn => self.btn_pressed.set(i, pressed),
        }
        rising
    }
}

impl Deck {
    /// The action of key `index` on the page shown (its press).
    pub open spec fn spec_key_action(&self, index: u8) -> Option<Action> {
        match key_pos(self.page().keys@, index) {
            Some(i) => self.page().keys@[i].1.press,
            None => None,
        }
    }

    /// The effective encoder `e{index}` of the page shown.
    pub open spec fn spec_encoder(&self, index: u8) -> Option<Encoder> {
        match lookup(self.encoders_view(), id_name('e', index as nat)) {
            Some(Origin::Page(i)) => Some(self.page().encoders@[i as int].1),
            Some(Origin::Profile(j)) => Some(self.spec_profile().encoders@[j as int].1),
            None => None,
        }
    }

    /// The effective LED `b{index}` of the page shown.
    pub open spec fn spec_led(&self, index: u8) -> Option<Led> {
        match lookup(self.leds_view(), id_name('b', index as nat)) {
            Some(Origin::Page(i)) => Some(self.page().leds@[i as int].1),
            Some(Origin::Profile(j)) => Some(self.spec_profile().leds@[j as int].1),
            None => None,
        }
    }

    /// Whether an input of `kind` at `i` is a not-pressed to pressed change.
    pub open spec fn rising(&self, kind: Input, i: int, pressed: bool) -> bool {
        pressed && !self.pressed(kind, i)
    }

    /// The action an input triggers: a key, encoder push or button acts when
    /// it goes down; an encoder acts on every turn.
    pub open spec fn input_action(&self, e: Event) -> Option<Action> {
        match e {
            Event::Key { index, pressed } => if self.rising(Input::Key, index as int, pressed) {
                self.spec_key_action(index)
            } else {
                None
            },
            Event::EncoderTurn { index, clockwise } => match self.spec_encoder(index) {
                Some(enc) => if clockwise {
                    enc.turn_cw
                } else {
                    enc.turn_ccw
                },
                None => None,
            },
            Event::EncoderPress { index, pressed } => if self.rising(
                Input::Enc,
                index as int,
                pressed,
            ) {
                match self.spec_encoder(index) {
                    Some(enc) => enc.press,
                    None => None,
                }
            } else {
                None
            },
            Event::Button { index, pressed } => if self.rising(Input::Btn, index as int, pressed) {
                match self.spec_led(index) {
                    Some(led) => led.press,
                    None => None,
                }
            } else {
                None
            },
        }
    }

    /// Which pressed flag an event reports, if any.
    pub open spec fn reported(e: Event) -> Option<(Input, int, bool)> {
        match e {
            Event::Key { index, pressed } => Some((Input::Key, index as int, pressed)),
            Event::EncoderTurn { .. } => None,
            Event::EncoderPress { index, pressed } => Some((Input::Enc, index as int, pressed)),
            Event::Button { index, pressed } => Some((Input::Btn, index as int, pressed)),
        }
    }
}

/// Whether an event that tracks a press names an input of the device: keys
/// 0..=11, encoder pushes 0..=5, buttons 0..=7. A turn tracks nothing and is
/// looked up by its id, so any index is taken (an unknown id does nothing).
pub open spec fn press_in_range(e: Event) -> bool {
    match e {
        Event::Key { index, .. } => index <= 11,
        Event::EncoderTurn { .. } => true,
        Event::EncoderPress { index, .. } => index <= 5,
        Event::Button { index, .. } => index <= 7,
    }
}

/// Whether `handle_input` takes the event: see `press_in_range`.
pub fn accepts_event(e: Event) -> (r: bool)
    ensures
        r == press_in_range(e),
{
    match e {
        Event::Key { index, .. } => index <= 11,
        Event::EncoderTurn { .. } => true,
        Event::EncoderPress { index, .. } => index <= 5,
        Event::Button { index, .. } => index <= 7,
    }
}

/// What the caller does for an action: tap a command, write a dataref
/// (named without any `[index]`), or nothing for a page switch, which the
/// deck keeps as pending.
pub open spec fn action_effect(a: Action) -> Option<EffectView> {
    match a {
        Action::Command { command } => Some(EffectView::RunCommand(command@)),
        Action::SetDataref { dataref, value } => Some(
            EffectView::SetDataref(spec_split_ref(dataref@).0, value),
        ),
        Action::Page { .. } => None,
    }
}

impl Deck {
    /// The key entry for `index` on the page shown.
    pub fn key(&self, index: u8) -> (r: Option<&Key>)
        requires
            self.wf(),
        ensures
            match key_pos(self.page().keys@, index) {
                Some(i) => r == Some(&self.page().keys@[i].1),
                None => r is None,
            },
    {
        let page = &self.profile.pages[self.current].1;
        match key_entry(&page.keys, index) {
            Some(i) => Some(&page.keys[i].1),
            None => None,
        }
    }

    /// The effective encoder `e{index}` of the page shown.
    pub fn encoder(&self, index: u8) -> (r: Option<&Encoder>)
        requires
            self.wf(),
        ensures
            match self.spec_encoder(index) {
                Some(e) => r == Some(&e),
                None => r is None,
            },
    {
        let id = id_string('e', index);
        proof {
            lemma_lookup_origins(self.eff_encoders@, id@);
            lemma_index_of(self.eff_encoders@, id@);
            lemma_merged_in_bounds(self.profile.encoders@, self.page().encoders@, id@);
        }
        match find(&self.eff_encoders, &id) {
            Some(i) => match self.eff_encoders[i].1 {
                Origin::Page(j) => Some(&self.profile.pages[self.current].1.encoders[j].1),
                Origin::Profile(j) => Some(&self.profile.encoders[j].1),
            },
            None => None,
        }
    }

    /// The effective LED `b{index}` of the page shown.
    pub fn led(&self, index: u8) -> (r: Option<&Led>)
        requires
            self.wf(),
        ensures
            match self.spec_led(index) {
                Some(l) => r == Some(&l),
                None => r is None,
            },
    {
        let id = id_string('b', index);
        proof {
            lemma_lookup_origins(self.eff_leds@, id@);
            lemma_index_of(self.eff_leds@, id@);
            lemma_merged_in_bounds(self.profile.leds@, self.page().leds@, id@);
        }
        match find(&self.eff_leds, &id) {
            Some(i) => match self.eff_leds[i].1 {
                Origin::Page(j) => Some(&self.profile.pages[self.current].1.leds[j].1),
                Origin::Profile(j) => Some(&self.profile.leds[j].1),
            },
            None => None,
        }
    }

}

/// What an optional action asks for: the caller's effect, and the page to
/// switch to.
fn plan(action: Option<&Action>) -> (r: (Option<Effect>, Option<String>))
    ensures
        match action {
            Some(a) => (match action_effect(*a) {
                Some(v) => r.0 matches Some(eff) && effect_view(eff) == v,
                None => r.0 is None,
            }) && (match *a {
                Action::Page { page } => r.1 matches Some(p) && p@ == page@,
                _ => r.1 is None,
            }),
            None => r.0 is None && r.1 is None,
        },
{
    match action {
        Some(Action::Command { command }) => (Some(Effect::RunCommand(command.clone())), None),
        Some(Action::SetDataref { dataref, value }) => {
            let (name, _) = split_ref(dataref.as_str());
            (Some(Effect::SetDataref { name: String::from_str(name), value: *value }), None)
        },
        Some(Action::Page { page }) => (None, Some(page.clone())),
        None => (None, None),
    }
}

impl Deck {
    /// Keep a page switch pending and hand back the effect.
    fn commit(&mut self, planned: (Option<Effect>, Option<String>)) -> (r: Option<Effect>)
        requires
            old(self).wf(),
        ensures
            final(self).wf(),
            r == planned.0,
            final(self).encoders_view() == old(self).encoders_view(),
            final(self).leds_view() == old(self).leds_view(),
            final(self).pending() == match planned.1 {
                Some(p) => Some(p@),
                None => old(self).pending(),
            },
            final(self).spec_profile() == old(self).spec_profile(),
            final(self).page_index() == old(self).page_index(),
            forall|k: Input, j: int| #[trigger] final(self).pressed(k, j) == old(self).pressed(k, j),
            forall|s: Surface| #[trigger] final(self).shown(s) == old(self).shown(s),
            forall|id: i64| #[trigger] final(self).value_of(id) == old(self).value_of(id),
            forall|n: Seq<char>| #[trigger] final(self).dataref_cached(n) == old(self).dataref_cached(
                n,
            ),
            forall|n: Seq<char>| #[trigger] final(self).command_cached(n) == old(self).command_cached(
                n,
            ),
    {
        let (effect, page) = planned;
        if let Some(p) = page {
            self.pending = Some(p);
        }
        effect
    }

    /// Take in one input event: track its press state and say what the
    /// caller must do for the action it triggers, if any. A page switch is
    /// kept pending (see `take_pending`).
    pub fn handle_input(&mut self, e: Event) -> (r: Option<Effect>)
        requires
            old(self).wf(),
            press_in_range(e),
        ensures
            final(self).wf(),
            final(self).encoders_view() == old(self).encoders_view(),
            final(self).leds_view() == old(self).leds_view(),
            match old(self).input_action(e) {
                Some(a) => match action_effect(a) {
                    Some(v) => r matches Some(eff) && effect_view(eff) == v && final(self).pending()
                        == old(self).pending(),
                    None => r is None && final(self).pending() == Some(a->Page_page@),
                },
                None => r is None && final(self).pending() == old(self).pending(),
            },
            match Deck::reported(e) {
                Some((kind, i, p)) => final(self).pressed(kind, i) == p && forall|k: Input, j: int|
                    (k != kind || j != i) ==> #[trigger] final(self).pressed(k, j) == old(
                        self,
                    ).pressed(k, j),
                None => forall|k: Input, j: int| #[trigger] final(self).pressed(k, j) == old(
                    self,
                ).pressed(k, j),
            },
            final(self).spec_profile() == old(self).spec_profile(),
            final(self).page_index() == old(self).page_index(),
            forall|s: Surface| #[trigger] final(self).shown(s) == old(self).shown(s),
            forall|id: i64| #[trigger] final(self).value_of(id) == old(self).value_of(id),
            forall|n: Seq<char>| #[trigger] final(self).dataref_cached(n) == old(self).dataref_cached(
                n,
            ),
            forall|n: Seq<char>| #[trigger] final(self).command_cached(n) == old(self).command_cached(
                n,
            ),
    {
        let planned = match e {
            Event::Key { index, pressed } => {
                if self.edge(index as usize, pressed, Input::Key) {
                    plan(
                        match self.key(index) {
                            Some(k) => k.press.as_ref(),
                            None => None,
                        },
                    )
                } else {
                    (None, None)
                }
            },
            Event::EncoderTurn { index, clockwise } => {
                plan(
                    match self.encoder(index) {
                        Some(enc) => if clockwise {
                            enc.turn_cw.as_ref()
                        } else {
                            enc.turn_ccw.as_ref()
                        },
                        None => None,
                    },
                )
            },
            Event::EncoderPress { index, pressed } => {
                if self.edge(index as usize, pressed, Input::Enc) {
                    plan(
                        match self.encoder(index) {
                            Some(enc) => enc.press.as_ref(),
                            None => None,
                        },
                    )
                } else {
                    (None, None)
                }
            },
            Event::Button { index, pressed } => {
                if self.edge(index as usize, pressed, Input::Btn) {
                    plan(
                        match self.led(index) {
                            Some(led) => led.press.as_ref(),
                            None => None,
                        },
                    )
                } else {
                    (None, None)
                }
            },
        };
        self.commit(planned)
    }
}

// ---------------------------------------------------------------------------
// What to draw
// ---------------------------------------------------------------------------

/// The colour of an optional colour text, if it reads as one.
pub open spec fn spec_color_of(c: Option<String>) -> Option<Rgb> {
    match c {
        Some(t) => spec_parse_color(t@),
        None => None,
    }
}

/// Read an optional colour text.
pub fn color_of(c: &Option<String>) -> (r: Option<Rgb>)
    ensures
        r == spec_color_of(*c),
{
    match c {
        Some(t) => parse_color(t.as_str()),
        None => None,
    }
}

/// The kind of tile a draw makes: an icon when its icon names a glyph, else
/// an annunciator when its lit colour reads as a colour, else text.
pub open spec fn spec_draw_kind(d: Draw) -> DrawKind {
    let icon = match d.icon {
        Some(n) => spec_icon_glyph(n@),
        None => None,
    };
    match icon {
        Some(g) => DrawKind::Icon(g),
        None => match spec_color_of(d.lit_color) {
            Some(rgb) => DrawKind::Annunciator(rgb),
            None => DrawKind::Text,
        },
    }
}

/// Decide what kind of tile a key draws.
pub fn draw_kind(d: &Draw) -> (r: DrawKind)
    ensures
        r == spec_draw_kind(*d),
{
    let icon = match &d.icon {
        Some(n) => icon_glyph(n.as_str()),
        None => None,
    };
    match icon {
        Some(g) => DrawKind::Icon(g),
        None => match color_of(&d.lit_color) {
            Some(rgb) => DrawKind::Annunciator(rgb),
            None => DrawKind::Text,
        },
    }
}

/// The colour overrides of a draw: its text colour (for label and value)
/// and its background.
pub open spec fn spec_style_colors(d: Draw) -> (Option<Rgb>, Option<Rgb>) {
    (spec_color_of(d.text_color), spec_color_of(d.bg_color))
}

/// Read a draw's colour overrides.
pub fn style_colors(d: &Draw) -> (r: (Option<Rgb>, Option<Rgb>))
    ensures
        r == spec_style_colors(*d),
{
    (color_of(&d.text_color), color_of(&d.bg_color))
}

/// The dataref references that key draws display, in key order.
pub open spec fn key_value_refs(keys: Seq<(u8, Key)>) -> Seq<Seq<char>>
    decreases keys.len(),
{
    if keys.len() == 0 {
        Seq::empty()
    } else {
        let rest = key_value_refs(keys.drop_last());
        match keys.last().1.draw {
            Some(d) => match d.value {
                Some(v) => rest.push(v@),
                None => rest,
            },
            None => rest,
        }
    }
}

impl Deck {
    /// The encoder an origin points at.
    pub open spec fn origin_encoder(&self, o: Origin) -> Encoder {
        match o {
            Origin::Page(i) => self.page().encoders@[i as int].1,
            Origin::Profile(j) => self.spec_profile().encoders@[j as int].1,
        }
    }

    /// The dataref references that effective encoders display, in order.
    pub open spec fn encoder_value_refs(&self, m: Seq<(Seq<char>, Origin)>) -> Seq<Seq<char>>
        decreases m.len(),
    {
        if m.len() == 0 {
            Seq::empty()
        } else {
            let rest = self.encoder_value_refs(m.drop_last());
            match self.origin_encoder(m.last().1).draw {
                Some(d) => match d.value {
                    Some(v) => rest.push(v@),
                    None => rest,
                },
                None => rest,
            }
        }
    }

    /// Every dataref reference the page shown displays: its keys', then its
    /// effective encoders'.
    pub open spec fn spec_value_refs(&self) -> Seq<Seq<char>> {
        key_value_refs(self.page().keys@) + self.encoder_value_refs(self.encoders_view())
    }

    /// The reading of a draw's value: its dataref's id (if resolved), that
    /// id's live value (if received), and the indexed element.
    pub open spec fn spec_reading(&self, d: Draw) -> Option<u64> {
        match d.value {
            None => None,
            Some(v) => {
                let (name, index) = spec_split_ref(v@);
                match self.dataref_cached(name) {
                    Some(Some(id)) => match self.value_of(id) {
                        Some(dv) => spec_scalar(dv, index),
                        None => None,
                    },
                    _ => None,
                }
            },
        }
    }

    /// The raw reading (bit pattern of a double) of a draw's value, if the
    /// data exists; scaling and formatting are the caller's.
    pub fn reading(&self, d: &Draw) -> (r: Option<u64>)
        ensures
            r == self.spec_reading(*d),
    {
        let v = match &d.value {
            Some(v) => v,
            None => return None,
        };
        let (name, index) = split_ref(v.as_str());
        let id = match self.cached_dataref_id(name) {
            Some(Some(id)) => id,
            _ => return None,
        };
        match self.value(id) {
            Some(dv) => dv.scalar(index),
            None => None,
        }
    }

    /// The draw of key `index` on the page shown.
    pub fn key_draw(&self, index: u8) -> (r: Option<&Draw>)
        requires
            self.wf(),
        ensures
            match key_pos(self.page().keys@, index) {
                Some(i) => match self.page().keys@[i].1.draw {
                    Some(d) => r == Some(&d),
                    None => r is None,
                },
                None => r is None,
            },
    {
        match self.key(index) {
            Some(k) => k.draw.as_ref(),
            None => None,
        }
    }

    /// The draw of effective encoder `e{index}`.
    pub fn encoder_draw(&self, index: u8) -> (r: Option<&Draw>)
        requires
            self.wf(),
        ensures
            match self.spec_encoder(index) {
                Some(e) => match e.draw {
                    Some(d) => r == Some(&d),
                    None => r is None,
                },
                None => r is None,
            },
    {
        match self.encoder(index) {
            Some(e) => e.draw.as_ref(),
            None => None,
        }
    }

    /// The static LED colours of the page shown: each effective LED
    /// `b0..=b7` whose colour reads as one.
    pub open spec fn spec_led_colors(&self, n: int) -> Seq<(u8, Rgb)>
        decreases n,
    {
        if n <= 0 {
            Seq::empty()
        } else {
            let rest = self.spec_led_colors(n - 1);
            match self.spec_led((n - 1) as u8) {
                Some(led) => match spec_color_of(led.color) {
                    Some(rgb) => rest.push(((n - 1) as u8, rgb)),
                    None => rest,
                },
                None => rest,
            }
        }
    }

    /// The LED colours to set when the page loads.
    pub fn led_colors(&self) -> (r: Vec<(u8, Rgb)>)
        requires
            self.wf(),
        ensures
            r@ == self.spec_led_colors(8),
    {
        let mut out: Vec<(u8, Rgb)> = Vec::new();
        let mut b: u8 = 0;
        while b < 8
            invariant
                b <= 8,
                self.wf(),
                self.spec_led_colors(b as int) == out@,
            decreases 8 - b,
        {
            match self.led(b) {
                Some(led) => match color_of(&led.color) {
                    Some(rgb) => {
                        out.push((b, rgb));
                    },
                    None => {},
                },
                None => {},
            }
            b = b + 1;
        }
        out
    }

    /// Every dataref reference the page shown displays.
    pub fn page_value_refs(&self) -> (r: Vec<String>)
        requires
            self.wf(),
        ensures
            r@.map_values(|s: String| s@) == self.spec_value_refs(),
    {
        let page = &self.profile.pages[self.current].1;
        let mut out: Vec<String> = Vec::new();
        let mut i: usize = 0;
        while i < page.keys.len()
            invariant
                i <= page.keys@.len(),
                *page == self.page(),
                out@.map_values(|s: String| s@) == key_value_refs(page.keys@.subrange(0, i as int)),
            decreases page.keys@.len() - i,
        {
            assert(page.keys@.subrange(0, i + 1).drop_last() =~= page.keys@.subrange(0, i as int));
            let ghost before = out@;
            match &page.keys[i].1.draw {
                Some(d) => match &d.value {
                    Some(v) => {
                        out.push(v.clone());
                        assert(out@.map_values(|s: String| s@) =~= before.map_values(|s: String| s@).push(
                            v@,
                        ));
                    },
                    None => {},
                },
                None => {},
            }
            i = i + 1;
        }
        assert(page.keys@.subrange(0, page.keys@.len() as int) =~= page.keys@);
        let ghost key_refs = out@.map_values(|s: String| s@);
        let mut j: usize = 0;
        while j < self.eff_encoders.len()
            invariant
                j <= self.eff_encoders@.len(),
                self.wf(),
                key_refs == key_value_refs(self.page().keys@),
                out@.map_values(|s: String| s@) == key_refs + self.encoder_value_refs(
                    origins_view(self.eff_encoders@).subrange(0, j as int),
                ),
            decreases self.eff_encoders@.len() - j,
        {
            let ghost m = origins_view(self.eff_encoders@);
            assert(m.subrange(0, j + 1).drop_last() =~= m.subrange(0, j as int));
            proof {
                lemma_origin_in_bounds(self, j as int);
            }
            let enc = match self.eff_encoders[j].1 {
                Origin::Page(x) => &self.profile.pages[self.current].1.encoders[x].1,
                Origin::Profile(x) => &self.profile.encoders[x].1,
            };
            let ghost before = out@;
            match &enc.draw {
                Some(d) => match &d.value {
                    Some(v) => {
                        out.push(v.clone());
                        assert(out@.map_values(|s: String| s@) =~= before.map_values(|s: String| s@).push(
                            v@,
                        ));
                        assert(key_refs + self.encoder_value_refs(m.subrange(0, j + 1)) =~= (key_refs
                            + self.encoder_value_refs(m.subrange(0, j as int))).push(v@));
                    },
                    None => {},
                },
                None => {},
            }
            j = j + 1;
        }
        assert(origins_view(self.eff_encoders@).subrange(0, self.eff_encoders@.len() as int)
            =~= origins_view(self.eff_encoders@));
        out
    }
}

/// Every origin in the effective encoders points at an existing encoder.
proof fn lemma_origin_in_bounds(d: &Deck, j: int)
    requires
        d.wf(),
        0 <= j < d.encoders_view().len(),
    ensures
        match d.encoders_view()[j].1 {
            Origin::Page(x) => x < d.page().encoders@.len(),
            Origin::Profile(x) => x < d.spec_profile().encoders@.len(),
        },
{
    lemma_merged_entry_in_bounds(
        keys_of(d.spec_profile().encoders@),
        keys_of(d.page().encoders@),
        j,
    );
}

/// Every entry of a merged list points inside the lists it came from.
proof fn lemma_merged_entry_in_bounds(dk: Seq<Seq<char>>, pk: Seq<Seq<char>>, j: int)
    requires
        0 <= j < merged_list(dk, pk).len(),
    ensures
        match merged_list(dk, pk)[j].1 {
            Origin::Page(x) => x < pk.len(),
            Origin::Profile(x) => x < dk.len(),
        },
{
    lemma_page_part_bounds(pk, pk.len() as int);
    lemma_kept_bounds(dk, pk, dk.len() as int);
}

proof fn lemma_page_part_bounds(p: Seq<Seq<char>>, i: int)
    requires
        0 <= i <= p.len(),
    ensures
        page_part(p, i).len() == i,
        forall|x: int| 0 <= x < i ==> (#[trigger] page_part(p, i)[x]).1 == Origin::Page(x as usize),
    decreases i,
{
    if i > 0 {
        lemma_page_part_bounds(p, i - 1);
    }
}

proof fn lemma_kept_bounds(d: Seq<Seq<char>>, p: Seq<Seq<char>>, j: int)
    requires
        0 <= j <= d.len(),
    ensures
        forall|x: int|
            0 <= x < kept(d, p, j).len() ==> ((#[trigger] kept(d, p, j)[x]).1 matches Origin::Profile(y)
                && y < j),
    decreases j,
{
    if j > 0 {
        lemma_kept_bounds(d, p, j - 1);
    }
}

/// What a draw's value reads: `name[i]` reads element `i` of the live
/// array value of `name`'s id (nothing past its end), and a plain `name`
/// (no `[` in it) reads a number itself or an array's first element; a
/// name whose id is unknown, or not looked up yet, or an id without a live
/// value, reads nothing.
pub proof fn lemma_reading(dk: &Deck, d: Draw, s: String, name: Seq<char>, i: nat, id: i64, a: Seq<u64>, n: u64)
    requires
        d.value == Some(s),
        i <= usize::MAX,
    ensures
        s@ == name + seq!['['] + decimal(i) + seq![']'] && dk.dataref_cached(name) == Some(Some(id))
            && dk.value_of(id) == Some(DataValueView::Array(a)) ==> dk.spec_reading(d) == if i < a.len() {
            Some(a[i as int])
        } else {
            None
        },
        (forall|k: int| 0 <= k < name.len() ==> #[trigger] name[k] != '[') && s@ == name
            && dk.dataref_cached(name) == Some(Some(id)) ==> (dk.value_of(id) == Some(
            DataValueView::Array(a),
        ) && a.len() > 0 ==> dk.spec_reading(d) == Some(a[0])) && (dk.value_of(id) == Some(
            DataValueView::Num(n),
        ) ==> dk.spec_reading(d) == Some(n)),
        s@ == name && (forall|k: int| 0 <= k < name.len() ==> #[trigger] name[k] != '[') && (
        dk.dataref_cached(name) is None || dk.dataref_cached(name) == Some(None::<i64>)) ==> dk.spec_reading(d) is None,
        s@ == name + seq!['['] + decimal(i) + seq![']'] && (dk.dataref_cached(name) is None
            || dk.dataref_cached(name) == Some(None::<i64>)) ==> dk.spec_reading(d) is None,
        dk.dataref_cached(spec_split_ref(s@).0) == Some(Some(id)) && dk.value_of(id) is None
            ==> dk.spec_reading(d) is None,
{
    lemma_split_ref_round_trip(name, i);
    if forall|k: int| 0 <= k < name.len() ==> #[trigger] name[k] != '[' {
        lemma_last_index_of_unique(name, '[', None);
    }
}

/// A tile's kind: a key with an icon name that names a glyph shows that
/// icon, whatever else it has; otherwise one with a lit colour that reads as
/// a colour is an annunciator in it; anything else shows text.
pub proof fn lemma_draw_kinds(d: Draw)
    ensures
        (d.icon matches Some(n) && spec_icon_glyph(n@) is Some) ==> spec_draw_kind(d) == DrawKind::Icon(
            spec_icon_glyph(d.icon.unwrap()@).unwrap(),
        ),
        (d.icon is None || spec_icon_glyph(d.icon.unwrap()@) is None) ==> (spec_color_of(d.lit_color)
            matches Some(c) ==> spec_draw_kind(d) == DrawKind::Annunciator(c)),
        (d.icon is None || spec_icon_glyph(d.icon.unwrap()@) is None) && spec_color_of(d.lit_color) is None
            ==> spec_draw_kind(d) == DrawKind::Text,
        d.lit_color matches Some(t) ==> spec_color_of(d.lit_color) == spec_parse_color(t@),
        d.lit_color is None ==> spec_color_of(d.lit_color) is None,
{
}

proof fn lemma_led_colors_upto(dk: &Deck, n: int)
    requires
        0 <= n <= 8,
    ensures
        forall|k: int| 0 <= k < dk.spec_led_colors(n).len() ==> {
            let (b, c) = #[trigger] dk.spec_led_colors(n)[k];
            &&& b < n
            &&& dk.spec_led(b) matches Some(led) && spec_color_of(led.color) == Some(c)
        },
        forall|k: int, m: int|
            0 <= k < m < dk.spec_led_colors(n).len() ==> (#[trigger] dk.spec_led_colors(n)[k]).0
                < (#[trigger] dk.spec_led_colors(n)[m]).0,
        forall|b: u8|
            b < n && (#[trigger] dk.spec_led(b) matches Some(led) && spec_color_of(led.color) is Some) ==> exists|k: int|
                0 <= k < dk.spec_led_colors(n).len() && (#[trigger] dk.spec_led_colors(n)[k]).0 == b,
    decreases n,
{
    if n > 0 {
        lemma_led_colors_upto(dk, n - 1);
        let rest = dk.spec_led_colors(n - 1);
        let cur = dk.spec_led_colors(n);
        assert forall|k: int| 0 <= k < rest.len() implies cur[k] == rest[k] by {}
        assert forall|b: u8|
            b < n && (#[trigger] dk.spec_led(b) matches Some(led) && spec_color_of(led.color) is Some) implies exists|k: int|
                0 <= k < cur.len() && (#[trigger] cur[k]).0 == b by {
            if b < n - 1 {
                let k = choose|k: int| 0 <= k < rest.len() && (#[trigger] rest[k]).0 == b;
                assert(cur[k] == rest[k]);
            } else {
                assert(cur[cur.len() - 1].0 == b);
            }
        }
    }
}

/// The LED colours set when a page loads: one entry per button b0..b7 that
/// has a colour that reads as one, in button order, with that colour.
pub proof fn lemma_led_colors(dk: &Deck)
    ensures
        forall|k: int| 0 <= k < dk.spec_led_colors(8).len() ==> {
            let (b, c) = #[trigger] dk.spec_led_colors(8)[k];
            &&& b < 8
            &&& dk.spec_led(b) matches Some(led) && spec_color_of(led.color) == Some(c)
        },
        forall|k: int, m: int|
            0 <= k < m < dk.spec_led_colors(8).len() ==> (#[trigger] dk.spec_led_colors(8)[k]).0
                < (#[trigger] dk.spec_led_colors(8)[m]).0,
        forall|b: u8|
            b < 8 && (#[trigger] dk.spec_led(b) matches Some(led) && spec_color_of(led.color) is Some) ==> exists|k: int|
                0 <= k < dk.spec_led_colors(8).len() && (#[trigger] dk.spec_led_colors(8)[k]).0 == b,
{
    lemma_led_colors_upto(dk, 8);
}

/// The first entry of a keyed list for `k`, if any.
pub open spec fn entry_for<T>(m: Seq<(String, T)>, k: Seq<char>) -> Option<T> {
    match index_of(m, k) {
        Some(i) => Some(m[i].1),
        None => None,
    }
}

/// On the page shown, encoder `i` is the page's own `e{i}` if it defines
/// one, else the profile's `e{i}` default, else none; likewise LED `b{i}`.
/// The id is the letter followed by the decimal number: `e3`, `b0`.
pub proof fn lemma_effective_inputs(d: &Deck, i: u8)
    requires
        d.wf(),
        d.page().encoders@.len() <= usize::MAX,
        d.page().leds@.len() <= usize::MAX,
        d.spec_profile().encoders@.len() <= usize::MAX,
        d.spec_profile().leds@.len() <= usize::MAX,
    ensures
        id_name('e', i as nat) == seq!['e'] + decimal(i as nat),
        id_name('b', i as nat) == seq!['b'] + decimal(i as nat),
        d.spec_encoder(i) == match entry_for(d.page().encoders@, seq!['e'] + decimal(i as nat)) {
            Some(enc) => Some(enc),
            None => entry_for(d.spec_profile().encoders@, seq!['e'] + decimal(i as nat)),
        },
        d.spec_led(i) == match entry_for(d.page().leds@, seq!['b'] + decimal(i as nat)) {
            Some(led) => Some(led),
            None => entry_for(d.spec_profile().leds@, seq!['b'] + decimal(i as nat)),
        },
{
    let prof = d.spec_profile();
    let p = d.page();
    let ke = seq!['e'] + decimal(i as nat);
    let kb = seq!['b'] + decimal(i as nat);
    assert(d.encoders_view() == merged_list(keys_of(prof.encoders@), keys_of(p.encoders@)));
    assert(d.leds_view() == merged_list(keys_of(prof.leds@), keys_of(p.leds@)));
    assert(id_name('e', i as nat) == ke);
    assert(id_name('b', i as nat) == kb);
    lemma_merge_page_wins(keys_of(prof.encoders@), keys_of(p.encoders@), ke);
    lemma_merge_page_wins(keys_of(prof.leds@), keys_of(p.leds@), kb);
    lemma_first_pos_keys(p.encoders@, ke);
    lemma_first_pos_keys(prof.encoders@, ke);
    lemma_first_pos_keys(p.leds@, kb);
    lemma_first_pos_keys(prof.leds@, kb);
    lemma_first_pos_bound(keys_of(p.encoders@), ke);
    lemma_first_pos_bound(keys_of(prof.encoders@), ke);
    lemma_first_pos_bound(keys_of(p.leds@), kb);
    lemma_first_pos_bound(keys_of(prof.leds@), kb);
}

/// What each input does: a key going down runs the page's key entry's
/// press, an encoder push its press and a button its LED's press; a release,
/// or a repeated press report, does nothing; every turn runs the encoder's
/// clockwise or counter-clockwise action.
pub proof fn lemma_input_actions(d: &Deck, i: u8, pressed: bool, clockwise: bool)
    ensures
        d.input_action(Event::Key { index: i, pressed }) == if pressed && !d.pressed(Input::Key, i as int) {
            match key_pos(d.page().keys@, i) {
                Some(k) => d.page().keys@[k].1.press,
                None => None,
            }
        } else {
            None
        },
        d.input_action(Event::EncoderTurn { index: i, clockwise }) == match d.spec_encoder(i) {
            Some(enc) => if clockwise {
                enc.turn_cw
            } else {
                enc.turn_ccw
            },
            None => None,
        },
        d.input_action(Event::EncoderPress { index: i, pressed }) == if pressed && !d.pressed(
            Input::Enc,
            i as int,
        ) {
            match d.spec_encoder(i) {
                Some(enc) => enc.press,
                None => None,
            }
        } else {
            None
        },
        d.input_action(Event::Button { index: i, pressed }) == if pressed && !d.pressed(
            Input::Btn,
            i as int,
        ) {
            match d.spec_led(i) {
                Some(led) => led.press,
                None => None,
            }
        } else {
            None
        },
{
}

proof fn lemma_subscription_prefix(a: Seq<Option<i64>>, b: Seq<Option<i64>>)
    ensures
        spec_subscription(a).len() <= spec_subscription(a + b).len(),
        spec_subscription(a + b).subrange(0, spec_subscription(a).len() as int) == spec_subscription(a),
    decreases b.len(),
{
    if b.len() == 0 {
        assert(a + b =~= a);
    } else {
        lemma_subscription_prefix(a, b.drop_last());
        assert((a + b).drop_last() =~= a + b.drop_last());
        let r = spec_subscription(a + b.drop_last());
        let n = spec_subscription(a).len() as int;
        assert(spec_subscription(a + b) == r || spec_subscription(a + b) == r.push(b.last().unwrap()));
        assert(r.push(b.last().unwrap()).subrange(0, n) =~= r.subrange(0, n)) by {
            if b.last() is Some {
            }
        }
    }
}

/// Ids are subscribed in the order they first resolve: what the first
/// references subscribe comes first, unchanged, whatever follows.
pub proof fn lemma_subscription_order(a: Seq<Option<i64>>, b: Seq<Option<i64>>)
    ensures
        spec_subscription(a + b).subrange(0, spec_subscription(a).len() as int) == spec_subscription(a),
{
    lemma_subscription_prefix(a, b);
}

impl Deck {
    /// Whether an event's encoder or LED is a profile-wide default that the
    /// page shown inherits, rather than one the page defines.
    pub open spec fn inherited(&self, e: Event) -> bool {
        match e {
            Event::Key { .. } => false,
            Event::EncoderTurn { index, .. } => lookup(self.encoders_view(), id_name('e', index as nat))
                matches Some(Origin::Profile(_)),
            Event::EncoderPress { index, .. } => lookup(
                self.encoders_view(),
                id_name('e', index as nat),
            ) matches Some(Origin::Profile(_)),
            Event::Button { index, .. } => lookup(self.leds_view(), id_name('b', index as nat))
                matches Some(Origin::Profile(_)),
        }
    }
}

proof fn lemma_key_pos_bound(keys: Seq<(u8, Key)>, k: u8)
    ensures
        key_pos(keys, k) matches Some(i) ==> 0 <= i < keys.len() && keys[i].0 == k,
    decreases keys.len(),
{
    if keys.len() > 0 {
        lemma_key_pos_bound(keys.drop_last(), k);
    }
}

/// An action that page `i` of an accepted profile defines itself, if it
/// switches pages, switches to one that exists.
proof fn lemma_own_action_lands(p: Profile, i: int, o: Option<Action>)
    requires
        spec_validate(p) is None,
        0 <= i < p.pages@.len(),
        contains_opt(page_actions(p.pages@[i].1), o),
    ensures
        o matches Some(Action::Page { page }) ==> index_of(p.pages@, page@) is Some,
{
    if let Some(a) = o {
        lemma_checked_action_lands(p, i, a);
        if let Action::Page { page } = a {
            lemma_index_of(p.pages@, page@);
            assert(has_page(p.pages@, page@));
        }
    }
}

/// A page switch that the page itself defines always lands: on a running
/// deck, the page that a key, or an encoder or LED of the page's own,
/// switches to exists, so loading it succeeds.
pub proof fn lemma_page_switch_lands(d: &Deck, e: Event)
    requires
        d.wf(),
        !d.inherited(e),
    ensures
        d.input_action(e) matches Some(Action::Page { page }) ==> index_of(
            d.spec_profile().pages@,
            page@,
        ) is Some,
{
    let prof = d.spec_profile();
    let i = d.page_index();
    let p = d.page();
    lemma_page_actions_contain(p);
    match e {
        Event::Key { index, .. } => {
            lemma_key_pos_bound(p.keys@, index);
            if let Some(k) = key_pos(p.keys@, index) {
                assert(contains_opt(page_actions(p), p.keys@[k].1.press));
                lemma_own_action_lands(prof, i, p.keys@[k].1.press);
            }
        },
        Event::EncoderTurn { index, .. } => {
            lemma_encoder_own(d, index);
        },
        Event::EncoderPress { index, .. } => {
            lemma_encoder_own(d, index);
        },
        Event::Button { index, .. } => {
            let id = id_name('b', index as nat);
            lemma_merge_page_wins(keys_of(prof.leds@), keys_of(p.leds@), id);
            lemma_first_pos_bound(keys_of(p.leds@), id);
            if let Some(Origin::Page(x)) = lookup(d.leds_view(), id) {
                assert(contains_opt(page_actions(p), p.leds@[x as int].1.press));
                lemma_own_action_lands(prof, i, p.leds@[x as int].1.press);
            }
        },
    }
}

/// The actions of a page-defined encoder `e{index}` land.
proof fn lemma_encoder_own(d: &Deck, index: u8)
    requires
        d.wf(),
        !(lookup(d.encoders_view(), id_name('e', index as nat)) matches Some(Origin::Profile(_))),
    ensures
        d.spec_encoder(index) matches Some(enc) ==> {
            &&& (enc.press matches Some(Action::Page { page }) ==> index_of(
                d.spec_profile().pages@,
                page@,
            ) is Some)
            &&& (enc.turn_cw matches Some(Action::Page { page }) ==> index_of(
                d.spec_profile().pages@,
                page@,
            ) is Some)
            &&& (enc.turn_ccw matches Some(Action::Page { page }) ==> index_of(
                d.spec_profile().pages@,
                page@,
            ) is Some)
        },
{
    let prof = d.spec_profile();
    let i = d.page_index();
    let p = d.page();
    let id = id_name('e', index as nat);
    lemma_page_actions_contain(p);
    lemma_merge_page_wins(keys_of(prof.encoders@), keys_of(p.encoders@), id);
    lemma_first_pos_bound(keys_of(p.encoders@), id);
    if let Some(Origin::Page(x)) = lookup(d.encoders_view(), id) {
        let enc = p.encoders@[x as int].1;
        assert(contains_opt(page_actions(p), enc.press));
        lemma_own_action_lands(prof, i, enc.press);
        lemma_own_action_lands(prof, i, enc.turn_cw);
        lemma_own_action_lands(prof, i, enc.turn_ccw);
    }
}

} // verus!
