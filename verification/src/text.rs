//! Text, keys and ordering shared by the rest of the library.
//!
//! Keys are compared the way `str` compares them: byte by byte over the UTF-8
//! encoding. A sorted map keyed that way iterates in the same order a
//! `BTreeMap<String, _>` would.

use vstd::prelude::*;
use vstd::string::*;
use vstd::utf8::*;

verus! {

broadcast use vstd::utf8::group_utf8_lib;

/// The result of comparing two keys.
#[derive(Debug, Clone, Copy, PartialEq, Eq, Structural)]
pub enum KeyOrder {
    Less,
    Equal,
    Greater,
}

/// Lexicographic order on bytes, deciding from position `i` onwards.
pub open spec fn lt_from(a: Seq<u8>, b: Seq<u8>, i: int) -> bool
    decreases a.len() - i,
{
    if i < 0 {
        false
    } else if i >= a.len() {
        i < b.len()
    } else if i >= b.len() {
        false
    } else if a[i] != b[i] {
        a[i] < b[i]
    } else {
        lt_from(a, b, i + 1)
    }
}

/// Strict lexicographic order on byte strings.
pub open spec fn bytes_lt(a: Seq<u8>, b: Seq<u8>) -> bool {
    lt_from(a, b, 0)
}

/// Strict order on keys: the byte order of their UTF-8 encodings.
pub open spec fn key_lt(a: Seq<char>, b: Seq<char>) -> bool {
    bytes_lt(encode_utf8(a), encode_utf8(b))
}

proof fn lemma_lt_from_trichotomy(a: Seq<u8>, b: Seq<u8>, i: int)
    requires
        0 <= i <= a.len(),
        i <= b.len(),
        a.subrange(0, i) == b.subrange(0, i),
    ensures
        lt_from(a, b, i) || lt_from(b, a, i) || a == b,
        !(lt_from(a, b, i) && lt_from(b, a, i)),
        a == b ==> !lt_from(a, b, i),
    decreases a.len() - i,
{
    if i < a.len() && i < b.len() && a[i] == b[i] {
        assert(a.subrange(0, i + 1) =~= a.subrange(0, i).push(a[i]));
        assert(b.subrange(0, i + 1) =~= b.subrange(0, i).push(b[i]));
        lemma_lt_from_trichotomy(a, b, i + 1);
    } else if i == a.len() && i == b.len() {
        assert(a =~= a.subrange(0, i));
        assert(b =~= b.subrange(0, i));
    }
}

proof fn lemma_lt_from_transitive(a: Seq<u8>, b: Seq<u8>, c: Seq<u8>, i: int)
    requires
        lt_from(a, b, i),
        lt_from(b, c, i),
    ensures
        lt_from(a, c, i),
    decreases a.len() - i,
{
    if 0 <= i < a.len() && i < b.len() && i < c.len() && a[i] == b[i] && b[i] == c[i] {
        lemma_lt_from_transitive(a, b, c, i + 1);
    }
}

/// The key order is a strict total order.
pub proof fn lemma_key_order(a: Seq<char>, b: Seq<char>)
    ensures
        key_lt(a, b) || key_lt(b, a) || a == b,
        !(key_lt(a, b) && key_lt(b, a)),
        !key_lt(a, a),
{
    let ea = encode_utf8(a);
    let eb = encode_utf8(b);
    assert(ea.subrange(0, 0) =~= eb.subrange(0, 0));
    lemma_lt_from_trichotomy(ea, eb, 0);
    assert(ea.subrange(0, 0) =~= ea.subrange(0, 0));
    lemma_lt_from_trichotomy(ea, ea, 0);
    if ea == eb {
        assert(decode_utf8(ea) == a);
        assert(decode_utf8(eb) == b);
    }
}

/// The key order is transitive.
pub proof fn lemma_key_lt_transitive(a: Seq<char>, b: Seq<char>, c: Seq<char>)
    requires
        key_lt(a, b),
        key_lt(b, c),
    ensures
        key_lt(a, c),
{
    lemma_lt_from_transitive(encode_utf8(a), encode_utf8(b), encode_utf8(c), 0);
}

/// Compare two byte strings lexicographically.
pub fn byte_order(a: &[u8], b: &[u8]) -> (order: KeyOrder)
    ensures
        (order == KeyOrder::Less) == bytes_lt(a@, b@),
        (order == KeyOrder::Equal) == (a@ == b@),
        (order == KeyOrder::Greater) == bytes_lt(b@, a@),
{
    let mut i: usize = 0;
    proof {
        assert(a@.subrange(0, 0) =~= b@.subrange(0, 0));
        lemma_lt_from_trichotomy(a@, b@, 0);
    }
    while i < a.len() && i < b.len()
        invariant
            0 <= i <= a@.len(),
            i <= b@.len(),
            a@.subrange(0, i as int) == b@.subrange(0, i as int),
            lt_from(a@, b@, 0) == lt_from(a@, b@, i as int),
            lt_from(b@, a@, 0) == lt_from(b@, a@, i as int),
        decreases a@.len() - i,
    {
        if a[i] < b[i] {
            return KeyOrder::Less;
        }
        if a[i] > b[i] {
            return KeyOrder::Greater;
        }
        proof {
            assert(a@.subrange(0, i + 1) =~= a@.subrange(0, i as int).push(a@[i as int]));
            assert(b@.subrange(0, i + 1) =~= b@.subrange(0, i as int).push(b@[i as int]));
        }
        i = i + 1;
    }
    proof {
        lemma_lt_from_trichotomy(a@, b@, i as int);
    }
    if a.len() < b.len() {
        KeyOrder::Less
    } else if a.len() > b.len() {
        KeyOrder::Greater
    } else {
        proof {
            assert(a@ =~= a@.subrange(0, i as int));
            assert(b@ =~= b@.subrange(0, i as int));
        }
        KeyOrder::Equal
    }
}

/// Compare two keys in the order a sorted map keeps them.
pub fn key_order(a: &str, b: &str) -> (order: KeyOrder)
    ensures
        (order == KeyOrder::Less) == key_lt(a@, b@),
        (order == KeyOrder::Equal) == (a@ == b@),
        (order == KeyOrder::Greater) == key_lt(b@, a@),
{
    let order = byte_order(a.as_bytes(), b.as_bytes());
    proof {
        if a.spec_bytes() == b.spec_bytes() {
            assert(decode_utf8(encode_utf8(a@)) == a@);
            assert(decode_utf8(encode_utf8(b@)) == b@);
        }
    }
    order
}

/// Append one character to a string.
///
/// Trusted: wraps `String::push`, which the standard library documents as
/// appending the given `char` to the end of the string.
#[verifier::external_body]
pub fn push_char(text: &mut String, c: char)
    ensures
        final(text)@ == old(text)@.push(c),
{
    text.push(c);
}

/// Append a string slice to a string.
pub fn push_str(text: &mut String, tail: &str)
    ensures
        final(text)@ == old(text)@ + tail@,
{
    text.append(tail);
}

/// A fresh string holding a copy of a slice.
pub fn to_owned_string(text: &str) -> (owned: String)
    ensures
        owned@ == text@,
{
    text.to_owned()
}

/// The ASCII digit for a value below ten.
pub open spec fn digit_char(d: nat) -> char {
    ((d + 48) as u8) as char
}

/// The decimal spelling of a natural number, as `Display` writes it.
pub open spec fn decimal(n: nat) -> Seq<char>
    decreases n,
{
    if n < 10 {
        seq![digit_char(n)]
    } else {
        decimal(n / 10).push(digit_char(n % 10))
    }
}

/// The decimal spelling of a signed number, with a leading `-` when negative.
pub open spec fn signed_decimal(n: int) -> Seq<char> {
    if n < 0 {
        seq!['-'] + decimal((-n) as nat)
    } else {
        decimal(n as nat)
    }
}

fn digit(d: u64) -> (c: char)
    requires
        d < 10,
    ensures
        c == digit_char(d as nat),
{
    let b: u8 = (d as u8) + 48;
    b as char
}

/// Append the decimal spelling of `n`.
pub fn push_decimal(text: &mut String, n: u64)
    ensures
        final(text)@ == old(text)@ + decimal(n as nat),
    decreases n,
{
    if n < 10 {
        push_char(text, digit(n));
        proof {
            assert(decimal(n as nat) =~= seq![digit_char(n as nat)]);
            assert(old(text)@.push(digit_char(n as nat)) =~= old(text)@ + seq![
                digit_char(n as nat),
            ]);
        }
    } else {
        push_decimal(text, n / 10);
        push_char(text, digit(n % 10));
        proof {
            assert(old(text)@ + decimal(n as nat) =~= (old(text)@ + decimal((n / 10) as nat)).push(
                digit_char((n % 10) as nat),
            ));
        }
    }
}

/// Append the decimal spelling of a signed number.
pub fn push_signed(text: &mut String, n: i64)
    ensures
        final(text)@ == old(text)@ + signed_decimal(n as int),
{
    if n < 0 {
        push_char(text, '-');
        let magnitude: u64 = if n == i64::MIN {
            9_223_372_036_854_775_808u64
        } else {
            (-n) as u64
        };
        push_decimal(text, magnitude);
        proof {
            assert(old(text)@ + signed_decimal(n as int) =~= old(text)@.push('-') + decimal(
                magnitude as nat,
            ));
        }
    } else {
        push_decimal(text, n as u64);
    }
}

/// The decimal spelling of a number, as a new string.
pub fn decimal_string(n: u64) -> (text: String)
    ensures
        text@ == decimal(n as nat),
{
    let mut text = String::new();
    push_decimal(&mut text, n);
    proof {
        assert(text@ =~= decimal(n as nat));
    }
    text
}

/// Whether a sequence of entries is strictly increasing by key.
pub open spec fn sorted_by_key<V>(s: Seq<(Seq<char>, V)>) -> bool {
    forall|i: int, j: int| 0 <= i < j < s.len() ==> key_lt(#[trigger] s[i].0, #[trigger] s[j].0)
}

/// Whether some entry carries this key.
pub open spec fn has_key<V>(s: Seq<(Seq<char>, V)>, k: Seq<char>) -> bool {
    exists|i: int| 0 <= i < s.len() && #[trigger] s[i].0 == k
}

/// Replacing the value of an existing key keeps the map's shape.
pub proof fn lemma_update_keys<V>(s: Seq<(Seq<char>, V)>, i: int, k: Seq<char>, v: V)
    requires
        sorted_by_key(s),
        0 <= i < s.len(),
        s[i].0 == k,
    ensures
        sorted_by_key(s.update(i, (k, v))),
        forall|e: (Seq<char>, V)|
            #![trigger s.update(i, (k, v)).contains(e)]
            #![trigger s.contains(e)]
            s.update(i, (k, v)).contains(e) <==> (e == (k, v) || (s.contains(e) && e.0 != k)),
{
    let t = s.update(i, (k, v));
    assert forall|a: int, b: int| 0 <= a < b < t.len() implies key_lt(
        #[trigger] t[a].0,
        #[trigger] t[b].0,
    ) by {
        assert(s[a].0 == t[a].0);
        assert(s[b].0 == t[b].0);
    }
    assert forall|e: (Seq<char>, V)| t.contains(e) <==> (e == (k, v) || (s.contains(e) && e.0
        != k)) by {
        if t.contains(e) {
            let j = choose|j: int| 0 <= j < t.len() && t[j] == e;
            if j != i {
                assert(s[j] == e);
                lemma_key_order(s[j].0, k);
                assert(s.contains(e));
            }
        }
        if s.contains(e) && e.0 != k {
            let j = choose|j: int| 0 <= j < s.len() && s[j] == e;
            assert(j != i);
            assert(t[j] == e);
        }
        if e == (k, v) {
            assert(t[i] == e);
        }
    }
}

/// Inserting a new key at its place in order keeps the map's shape.
pub proof fn lemma_insert_keys<V>(s: Seq<(Seq<char>, V)>, i: int, k: Seq<char>, v: V)
    requires
        sorted_by_key(s),
        0 <= i <= s.len(),
        forall|j: int| 0 <= j < i ==> key_lt(#[trigger] s[j].0, k),
        forall|j: int| i <= j < s.len() ==> key_lt(k, #[trigger] s[j].0),
    ensures
        sorted_by_key(s.insert(i, (k, v))),
        forall|e: (Seq<char>, V)|
            #![trigger s.insert(i, (k, v)).contains(e)]
            #![trigger s.contains(e)]
            s.insert(i, (k, v)).contains(e) <==> (e == (k, v) || (s.contains(e) && e.0 != k)),
{
    let t = s.insert(i, (k, v));
    assert forall|a: int, b: int| 0 <= a < b < t.len() implies key_lt(
        #[trigger] t[a].0,
        #[trigger] t[b].0,
    ) by {
        if b < i {
            assert(t[a] == s[a]);
            assert(t[b] == s[b]);
        } else if b == i {
            assert(t[a] == s[a]);
        } else if a == i {
            assert(t[b] == s[b - 1]);
        } else if a < i {
            assert(t[a] == s[a]);
            assert(t[b] == s[b - 1]);
            lemma_key_lt_transitive(s[a].0, k, s[b - 1].0);
        } else {
            assert(t[a] == s[a - 1]);
            assert(t[b] == s[b - 1]);
        }
    }
    assert forall|e: (Seq<char>, V)| t.contains(e) <==> (e == (k, v) || (s.contains(e) && e.0
        != k)) by {
        if t.contains(e) {
            let j = choose|j: int| 0 <= j < t.len() && t[j] == e;
            if j < i {
                assert(s[j] == e);
                lemma_key_order(s[j].0, k);
            } else if j > i {
                assert(s[j - 1] == e);
                lemma_key_order(k, s[j - 1].0);
            }
        }
        if s.contains(e) && e.0 != k {
            let j = choose|j: int| 0 <= j < s.len() && s[j] == e;
            if j < i {
                assert(t[j] == e);
            } else {
                assert(t[j + 1] == e);
            }
        }
        if e == (k, v) {
            assert(t[i] == e);
        }
    }
}

/// Where a key sits in a sequence of entries (meaningful when it is there).
pub open spec fn key_position<V>(s: Seq<(Seq<char>, V)>, k: Seq<char>) -> int {
    choose|i: int| 0 <= i < s.len() && #[trigger] s[i].0 == k
}

/// The value stored under a key, if any.
pub open spec fn value_of<V>(s: Seq<(Seq<char>, V)>, k: Seq<char>) -> Option<V> {
    if has_key(s, k) {
        Some(s[key_position(s, k)].1)
    } else {
        None
    }
}

/// In a sequence sorted by key, an entry found at any position is the one
/// the key names.
pub proof fn lemma_unique_key<V>(s: Seq<(Seq<char>, V)>, i: int, k: Seq<char>)
    requires
        sorted_by_key(s),
        0 <= i < s.len(),
        s[i].0 == k,
    ensures
        has_key(s, k),
        key_position(s, k) == i,
        value_of(s, k) == Some(s[i].1),
{
    let j = key_position(s, k);
    if j != i {
        lemma_key_order(s[i].0, s[j].0);
    }
}

/// A strictly increasing list of keys.
pub open spec fn ascending_keys(ks: Seq<Seq<char>>) -> bool {
    forall|i: int, j: int| 0 <= i < j < ks.len() ==> key_lt(#[trigger] ks[i], #[trigger] ks[j])
}

/// What a key holds after a merge: the incoming value where it is preferred
/// to the held one or nothing is held, and the held value otherwise.
pub open spec fn merged_value<V>(
    held: Option<V>,
    incoming: Option<V>,
    prefer: spec_fn(V, V) -> bool,
) -> Option<V> {
    match (incoming, held) {
        (Some(n), Some(o)) => if prefer(n, o) {
            Some(n)
        } else {
            Some(o)
        },
        (Some(n), None) => Some(n),
        (None, o) => o,
    }
}

/// After an insertion into a sorted map, a key holds the inserted value if
/// it is the inserted key, and what it held before otherwise.
pub proof fn lemma_insert_value<V>(
    before: Seq<(Seq<char>, V)>,
    after: Seq<(Seq<char>, V)>,
    key: Seq<char>,
    v: V,
    k: Seq<char>,
)
    requires
        sorted_by_key(before),
        sorted_by_key(after),
        forall|e: (Seq<char>, V)|
            #![trigger after.contains(e)]
            #![trigger before.contains(e)]
            after.contains(e) <==> (e == (key, v) || (before.contains(e) && e.0 != key)),
    ensures
        value_of(after, k) == if k == key {
            Some(v)
        } else {
            value_of(before, k)
        },
{
    if k == key {
        assert(after.contains((key, v)));
        let x = choose|x: int| 0 <= x < after.len() && after[x] == (key, v);
        lemma_unique_key(after, x, k);
    } else if has_key(before, k) {
        let y = choose|y: int| 0 <= y < before.len() && #[trigger] before[y].0 == k;
        assert(before.contains(before[y]));
        assert(after.contains(before[y]));
        let x = choose|x: int| 0 <= x < after.len() && after[x] == before[y];
        lemma_unique_key(after, x, k);
        lemma_unique_key(before, y, k);
    } else if has_key(after, k) {
        let x = choose|x: int| 0 <= x < after.len() && #[trigger] after[x].0 == k;
        assert(after.contains(after[x]));
        assert(before.contains(after[x]));
        let y = choose|y: int| 0 <= y < before.len() && before[y] == after[x];
        assert(before[y].0 == k);
    }
}

/// Two strictly increasing key lists with the same members are one list.
pub proof fn lemma_ascending_keys_unique(a: Seq<Seq<char>>, b: Seq<Seq<char>>)
    requires
        ascending_keys(a),
        ascending_keys(b),
        forall|k: Seq<char>| a.contains(k) <==> b.contains(k),
    ensures
        a == b,
    decreases a.len(),
{
    if a.len() == 0 {
        if b.len() > 0 {
            assert(b.contains(b[0]));
        }
        assert(a =~= b);
    } else {
        assert(a.contains(a[0]));
        let m = choose|m: int| 0 <= m < b.len() && b[m] == a[0];
        assert(b.contains(b[0]));
        let n = choose|n: int| 0 <= n < a.len() && a[n] == b[0];
        if m > 0 {
            assert(key_lt(b[0], b[m]));
            lemma_key_order(a[0], b[0]);
            if n > 0 {
                assert(key_lt(a[0], a[n]));
            }
            assert(false);
        }
        let a1 = a.subrange(1, a.len() as int);
        let b1 = b.subrange(1, b.len() as int);
        assert forall|k: Seq<char>| a1.contains(k) <==> b1.contains(k) by {
            if a1.contains(k) {
                let x = choose|x: int| 0 <= x < a1.len() && a1[x] == k;
                assert(a[x + 1] == k);
                assert(key_lt(a[0], a[x + 1]));
                lemma_key_order(a[0], k);
                assert(a.contains(k));
                let y = choose|y: int| 0 <= y < b.len() && b[y] == k;
                assert(y != 0);
                assert(b1[y - 1] == k);
            }
            if b1.contains(k) {
                let x = choose|x: int| 0 <= x < b1.len() && b1[x] == k;
                assert(b[x + 1] == k);
                assert(key_lt(b[0], b[x + 1]));
                lemma_key_order(b[0], k);
                assert(b.contains(k));
                let y = choose|y: int| 0 <= y < a.len() && a[y] == k;
                assert(y != 0);
                assert(a1[y - 1] == k);
            }
        }
        assert(ascending_keys(a1)) by {
            assert forall|i: int, j: int| 0 <= i < j < a1.len() implies key_lt(
                #[trigger] a1[i],
                #[trigger] a1[j],
            ) by {
                assert(a1[i] == a[i + 1] && a1[j] == a[j + 1]);
            }
        }
        assert(ascending_keys(b1)) by {
            assert forall|i: int, j: int| 0 <= i < j < b1.len() implies key_lt(
                #[trigger] b1[i],
                #[trigger] b1[j],
            ) by {
                assert(b1[i] == b[i + 1] && b1[j] == b[j + 1]);
            }
        }
        lemma_ascending_keys_unique(a1, b1);
        assert(a =~= b) by {
            assert forall|i: int| 0 <= i < a.len() implies a[i] == b[i] by {
                if i > 0 {
                    assert(a[i] == a1[i - 1] && b[i] == b1[i - 1]);
                }
            }
        }
    }
}

/// A map from string keys, kept sorted by key so that it iterates in the
/// order a `BTreeMap<String, V>` does.
#[derive(Debug, PartialEq)]
pub struct StrMap<V> {
    entries: Vec<(String, V)>,
}

impl<V> View for StrMap<V> {
    type V = Seq<(Seq<char>, V)>;

    closed spec fn view(&self) -> Seq<(Seq<char>, V)> {
        self.entries@.map_values(|e: (String, V)| (e.0@, e.1))
    }
}

/// A value held in a map is smaller than the map, so recursion into the
/// values of a map terminates.
pub proof fn lemma_value_decreases<V>(m: StrMap<V>, i: int)
    requires
        0 <= i < m@.len(),
    ensures
        decreases_to!(m => m@[i].1),
{
    assert(decreases_to!(m => m.entries));
    assert(decreases_to!(m.entries => m.entries@));
    assert(decreases_to!(m.entries@ => m.entries@[i]));
    assert(decreases_to!(m.entries@[i] => m.entries@[i].1));
}

impl<V> StrMap<V> {
    #[verifier::type_invariant]
    closed spec fn entries_sorted(&self) -> bool {
        sorted_by_key(self@)
    }

    /// An empty map.
    pub fn new() -> (map: Self)
        ensures
            map@ == Seq::<(Seq<char>, V)>::empty(),
    {
        let map = StrMap { entries: Vec::new() };
        proof {
            assert(map@ =~= Seq::<(Seq<char>, V)>::empty());
        }
        map
    }

    /// The entries are in strictly increasing key order.
    pub fn lemma_sorted(&self)
        ensures
            sorted_by_key(self@),
    {
        proof {
            use_type_invariant(self);
        }
    }

    pub fn len(&self) -> (n: usize)
        ensures
            n == self@.len(),
    {
        self.entries.len()
    }

    pub fn is_empty(&self) -> (empty: bool)
        ensures
            empty == (self@.len() == 0),
    {
        self.entries.len() == 0
    }

    /// The key and value at a position in key order.
    pub fn entry(&self, i: usize) -> (e: (&String, &V))
        requires
            i < self@.len(),
        ensures
            e.0@ == self@[i as int].0,
            *e.1 == self@[i as int].1,
    {
        let e = &self.entries[i];
        (&e.0, &e.1)
    }

    /// Where `key` is, or `None`.
    pub fn position(&self, key: &str) -> (found: Option<usize>)
        ensures
            match found {
                Some(i) => i < self@.len() && self@[i as int].0 == key@,
                None => !has_key(self@, key@),
            },
    {
        let mut i: usize = 0;
        while i < self.entries.len()
            invariant
                0 <= i <= self@.len(),
                self@.len() == self.entries@.len(),
                forall|j: int| 0 <= j < i ==> self@[j].0 != key@,
            decreases self@.len() - i,
        {
            let order = key_order(self.entries[i].0.as_str(), key);
            if order == KeyOrder::Equal {
                return Some(i);
            }
            i = i + 1;
        }
        None
    }

    /// The value under `key`, if any.
    pub fn get(&self, key: &str) -> (value: Option<&V>)
        ensures
            match value {
                Some(v) => self@.contains((key@, *v)) && value_of(self@, key@) == Some(*v),
                None => !has_key(self@, key@) && value_of(self@, key@) == None::<V>,
            },
    {
        proof {
            use_type_invariant(self);
        }
        match self.position(key) {
            Some(i) => {
                let v = &self.entries[i].1;
                proof {
                    assert(self@[i as int] == (key@, *v));
                    lemma_unique_key(self@, i as int, key@);
                }
                Some(v)
            },
            None => None,
        }
    }

    pub fn contains_key(&self, key: &str) -> (found: bool)
        ensures
            found == has_key(self@, key@),
    {
        self.position(key).is_some()
    }

    /// Insert or replace the value under `key`, returning what was there.
    pub fn insert(&mut self, key: String, value: V) -> (previous: Option<V>)
        ensures
            sorted_by_key(final(self)@),
            forall|e: (Seq<char>, V)|
                #![trigger final(self)@.contains(e)]
                #![trigger old(self)@.contains(e)]
                final(self)@.contains(e) <==> (e == (key@, value) || (old(self)@.contains(e)
                    && e.0 != key@)),
            match previous {
                Some(v) => old(self)@.contains((key@, v)),
                None => !has_key(old(self)@, key@),
            },
    {
        proof {
            use_type_invariant(&*self);
        }
        let ghost old_view = self@;
        let ghost k = key@;
        let mut i: usize = 0;
        while i < self.entries.len()
            invariant
                0 <= i <= old_view.len(),
                self@ == old_view,
                k == key@,
                self.entries@.len() == old_view.len(),
                sorted_by_key(old_view),
                forall|j: int| 0 <= j < i ==> key_lt(#[trigger] old_view[j].0, k),
            ensures
                k == key@,
                0 <= i <= old_view.len(),
                self@ == old_view,
                sorted_by_key(old_view),
                forall|j: int| 0 <= j < i ==> key_lt(#[trigger] old_view[j].0, k),
                i < old_view.len() ==> !key_lt(old_view[i as int].0, k),
            decreases old_view.len() - i,
        {
            let order = key_order(self.entries[i].0.as_str(), key.as_str());
            if order != KeyOrder::Less {
                break;
            }
            i = i + 1;
        }
        let mut entries: Vec<(String, V)> = Vec::new();
        std::mem::swap(&mut entries, &mut self.entries);
        assert(old_view =~= entries@.map_values(|e: (String, V)| (e.0@, e.1)));
        if i < entries.len() && key_order(entries[i].0.as_str(), key.as_str()) == KeyOrder::Equal {
            assert(old_view[i as int].0 == k);
            let entry = (key, value);
            let old_entry = entries.remove(i);
            entries.insert(i, entry);
            proof {
                lemma_update_keys(old_view, i as int, k, value);
                assert(entries@.map_values(|e: (String, V)| (e.0@, e.1)) =~= old_view.update(
                    i as int,
                    (k, value),
                ));
            }
            self.entries = entries;
            proof {
                assert(old_view[i as int] == (k, old_entry.1));
            }
            Some(old_entry.1)
        } else {
            proof {
                if i < old_view.len() {
                    lemma_key_order(old_view[i as int].0, k);
                }
                assert forall|j: int| i <= j < old_view.len() implies key_lt(
                    k,
                    #[trigger] old_view[j].0,
                ) by {
                    if j > i {
                        lemma_key_lt_transitive(k, old_view[i as int].0, old_view[j].0);
                    }
                }
                lemma_insert_keys(old_view, i as int, k, value);
                assert forall|j: int| 0 <= j < old_view.len() implies old_view[j].0 != k by {
                    if j < i {
                        lemma_key_order(old_view[j].0, k);
                    } else {
                        lemma_key_order(k, old_view[j].0);
                    }
                }
            }
            entries.insert(i, (key, value));
            proof {
                assert(entries@.map_values(|e: (String, V)| (e.0@, e.1)) =~= old_view.insert(
                    i as int,
                    (k, value),
                ));
            }
            self.entries = entries;
            None
        }
    }

    /// Remove the entry under `key`, returning its value.
    pub fn remove(&mut self, key: &str) -> (removed: Option<V>)
        ensures
            sorted_by_key(final(self)@),
            forall|e: (Seq<char>, V)|
                #![trigger final(self)@.contains(e)]
                #![trigger old(self)@.contains(e)]
                final(self)@.contains(e) <==> (old(self)@.contains(e) && e.0 != key@),
            match removed {
                Some(v) => old(self)@.contains((key@, v)),
                None => !has_key(old(self)@, key@) && final(self)@ == old(self)@,
            },
    {
        proof {
            use_type_invariant(&*self);
        }
        let ghost old_view = self@;
        match self.position(key) {
            Some(i) => {
                let mut entries: Vec<(String, V)> = Vec::new();
                std::mem::swap(&mut entries, &mut self.entries);
                let entry = entries.remove(i);
                proof {
                    let nv = entries@.map_values(|e: (String, V)| (e.0@, e.1));
                    assert(nv =~= old_view.remove(i as int));
                    assert forall|a: int, b: int| 0 <= a < b < nv.len() implies key_lt(
                        #[trigger] nv[a].0,
                        #[trigger] nv[b].0,
                    ) by {
                        if b < i {
                            assert(nv[a] == old_view[a]);
                            assert(nv[b] == old_view[b]);
                        } else if a < i {
                            assert(nv[a] == old_view[a]);
                            assert(nv[b] == old_view[b + 1]);
                        } else {
                            assert(nv[a] == old_view[a + 1]);
                            assert(nv[b] == old_view[b + 1]);
                        }
                    }
                }
                self.entries = entries;
                proof {
                    assert(self@ =~= old_view.remove(i as int));
                    assert(old_view[i as int] == (key@, entry.1));
                    assert forall|e: (Seq<char>, V)| self@.contains(e) <==> (old_view.contains(e)
                        && e.0 != key@) by {
                        if self@.contains(e) {
                            let j = choose|j: int| 0 <= j < self@.len() && self@[j] == e;
                            if j < i {
                                assert(old_view[j] == e);
                                lemma_key_order(old_view[j].0, key@);
                            } else {
                                assert(old_view[j + 1] == e);
                                lemma_key_order(old_view[j + 1].0, key@);
                            }
                        }
                        if old_view.contains(e) && e.0 != key@ {
                            let j = choose|j: int| 0 <= j < old_view.len() && old_view[j] == e;
                            if j < i {
                                assert(self@[j] == e);
                            } else {
                                assert(j != i);
                                assert(self@[j - 1] == e);
                            }
                        }
                    }
                    assert forall|a: int, b: int| 0 <= a < b < self@.len() implies key_lt(
                        #[trigger] self@[a].0,
                        #[trigger] self@[b].0,
                    ) by {
                        if b < i {
                            assert(self@[a] == old_view[a]);
                            assert(self@[b] == old_view[b]);
                        } else if a < i {
                            assert(self@[a] == old_view[a]);
                            assert(self@[b] == old_view[b + 1]);
                        } else {
                            assert(self@[a] == old_view[a + 1]);
                            assert(self@[b] == old_view[b + 1]);
                        }
                    }
                }
                Some(entry.1)
            },
            None => {
                proof {
                    assert forall|e: (Seq<char>, V)| self@.contains(e) implies e.0 != key@ by {
                        let j = choose|j: int| 0 <= j < self@.len() && self@[j] == e;
                    }
                }
                None
            },
        }
    }

    /// The keys in order.
    pub fn keys(&self) -> (keys: Vec<&String>)
        ensures
            keys@.len() == self@.len(),
            forall|i: int| 0 <= i < keys@.len() ==> (#[trigger] keys@[i])@ == self@[i].0,
    {
        let mut keys: Vec<&String> = Vec::new();
        let mut i: usize = 0;
        while i < self.entries.len()
            invariant
                0 <= i <= self@.len(),
                self.entries@.len() == self@.len(),
                keys@.len() == i,
                forall|j: int| 0 <= j < i ==> (#[trigger] keys@[j])@ == self@[j].0,
            decreases self@.len() - i,
        {
            keys.push(&self.entries[i].0);
            i = i + 1;
        }
        keys
    }

    /// The values in key order.
    pub fn values(&self) -> (values: Vec<&V>)
        ensures
            values@.len() == self@.len(),
            forall|i: int| 0 <= i < values@.len() ==> *(#[trigger] values@[i]) == self@[i].1,
    {
        let mut values: Vec<&V> = Vec::new();
        let mut i: usize = 0;
        while i < self.entries.len()
            invariant
                0 <= i <= self@.len(),
                self.entries@.len() == self@.len(),
                values@.len() == i,
                forall|j: int| 0 <= j < i ==> *(#[trigger] values@[j]) == self@[j].1,
            decreases self@.len() - i,
        {
            values.push(&self.entries[i].1);
            i = i + 1;
        }
        values
    }
}

impl<V: Clone> Clone for StrMap<V> {
    /// A copy with the same keys, each value cloned.
    fn clone(&self) -> (copy: Self)
        ensures
            copy@.len() == self@.len(),
            forall|i: int| 0 <= i < self@.len() ==> (#[trigger] copy@[i]).0 == self@[i].0,
    {
        proof {
            use_type_invariant(self);
        }
        let mut entries: Vec<(String, V)> = Vec::new();
        let mut i: usize = 0;
        while i < self.entries.len()
            invariant
                0 <= i <= self@.len(),
                self.entries@.len() == self@.len(),
                entries@.len() == i,
                forall|j: int| 0 <= j < i ==> (#[trigger] entries@[j]).0@ == self@[j].0,
            decreases self@.len() - i,
        {
            let key = self.entries[i].0.clone();
            let value = self.entries[i].1.clone();
            entries.push((key, value));
            i = i + 1;
        }
        let copy = StrMap { entries };
        proof {
            assert forall|a: int, b: int| 0 <= a < b < copy@.len() implies key_lt(
                #[trigger] copy@[a].0,
                #[trigger] copy@[b].0,
            ) by {
                assert(copy@[a].0 == self@[a].0);
                assert(copy@[b].0 == self@[b].0);
            }
        }
        copy
    }
}

impl<V> Default for StrMap<V> {
    fn default() -> (map: Self)
        ensures
            map@ == Seq::<(Seq<char>, V)>::empty(),
    {
        StrMap::new()
    }
}

impl<V> StrMap<V> {
    /// Add an entry whose key comes after every key already held.
    pub fn push_greatest(&mut self, key: String, value: V)
        requires
            old(self)@.len() > 0 ==> key_lt(old(self)@.last().0, key@),
        ensures
            final(self)@ == old(self)@.push((key@, value)),
    {
        proof {
            use_type_invariant(&*self);
        }
        let ghost before = self@;
        let ghost k = key@;
        let mut entries: Vec<(String, V)> = Vec::new();
        std::mem::swap(&mut entries, &mut self.entries);
        assert(before =~= entries@.map_values(|e: (String, V)| (e.0@, e.1)));
        entries.push((key, value));
        proof {
            let nv = entries@.map_values(|e: (String, V)| (e.0@, e.1));
            assert(nv =~= before.push((k, value)));
            assert forall|a: int, b: int| 0 <= a < b < nv.len() implies key_lt(
                #[trigger] nv[a].0,
                #[trigger] nv[b].0,
            ) by {
                if b == before.len() && a < before.len() - 1 {
                    lemma_key_lt_transitive(before[a].0, before.last().0, k);
                }
            }
        }
        self.entries = entries;
    }

    /// Merge another map into this one. A key held by only one of the two
    /// keeps its value; where both hold it, the incoming value replaces the
    /// held one exactly when `replaces` says so.
    pub fn merge<F: Fn(&V, &V) -> bool>(
        &mut self,
        from: StrMap<V>,
        Ghost(prefer): Ghost<spec_fn(V, V) -> bool>,
        replaces: F,
    )
        requires
            forall|a: &V, b: &V| #[trigger] replaces.requires((a, b)),
            forall|a: &V, b: &V, r: bool| #[trigger] replaces.ensures((a, b), r) ==> r == prefer(*a, *b),
        ensures
            forall|k: Seq<char>|
                #[trigger] value_of(final(self)@, k) == merged_value(
                    value_of(old(self)@, k),
                    value_of(from@, k),
                    prefer,
                ),
    {
        let ghost before = self@;
        let ghost incoming = from@;
        let mut pairs = from.into_pairs();
        let ghost n = incoming.len();
        while pairs.len() > 0
            invariant
                forall|a: &V, b: &V| #[trigger] replaces.requires((a, b)),
                forall|a: &V, b: &V, r: bool| #[trigger] replaces.ensures((a, b), r) ==> r == prefer(*a, *b),
                sorted_by_key(incoming),
                n == incoming.len(),
                pairs@.len() <= n,
                pairs@.map_values(|e: (String, V)| (e.0@, e.1)) == incoming.subrange(
                    0,
                    pairs@.len() as int,
                ),
                forall|k: Seq<char>|
                    #[trigger] value_of(self@, k) == if has_key(
                        incoming.subrange(pairs@.len() as int, n as int),
                        k,
                    ) {
                        merged_value(value_of(before, k), value_of(incoming, k), prefer)
                    } else {
                        value_of(before, k)
                    },
            decreases pairs@.len(),
        {
            let ghost i = pairs@.len() - 1;
            let ghost done = incoming.subrange(i + 1, n as int);
            let ghost now = incoming.subrange(i, n as int);
            let ghost held = pairs@;
            proof {
                let view = held.map_values(|e: (String, V)| (e.0@, e.1));
                assert(view[i] == incoming.subrange(0, held.len() as int)[i]);
            }
            let (key, value) = pairs.pop().unwrap();
            proof {
                assert(held[i] == (key, value));
                assert(incoming[i] == (key@, value));
                lemma_unique_key(incoming, i, key@);
                assert forall|k: Seq<char>| has_key(now, k) <==> (has_key(done, k) || k == key@) by {
                    if has_key(now, k) {
                        let x = choose|x: int| 0 <= x < now.len() && #[trigger] now[x].0 == k;
                        if x > 0 {
                            assert(done[x - 1].0 == k);
                        }
                    }
                    if k == key@ {
                        assert(now[0].0 == k);
                    }
                    if has_key(done, k) {
                        let x = choose|x: int| 0 <= x < done.len() && #[trigger] done[x].0 == k;
                        assert(now[x + 1].0 == k);
                    }
                }
                assert(!has_key(done, key@)) by {
                    if has_key(done, key@) {
                        let x = choose|x: int| 0 <= x < done.len() && #[trigger] done[x].0 == key@;
                        assert(done[x] == incoming[i + 1 + x]);
                        assert(key_lt(incoming[i].0, incoming[i + 1 + x].0));
                        lemma_key_order(key@, key@);
                    }
                }
                assert(pairs@.map_values(|e: (String, V)| (e.0@, e.1)) =~= incoming.subrange(0, i));
            }
            let keep_held = match self.get(key.as_str()) {
                Some(held) => !replaces(&value, held),
                None => false,
            };
            if !keep_held {
                let ghost prior = self@;
                let ghost k0 = key@;
                proof {
                    use_type_invariant(&*self);
                }
                self.insert(key, value);
                proof {
                    assert forall|k: Seq<char>| #[trigger]
                        value_of(self@, k) == if k == k0 {
                            Some(value)
                        } else {
                            value_of(prior, k)
                        } by {
                        lemma_insert_value(prior, self@, k0, value, k);
                    }
                }
            }
        }
        proof {
            assert(incoming.subrange(0, n as int) =~= incoming);
        }
    }

    /// The entries, in key order, given up by the map.
    pub fn into_pairs(self) -> (pairs: Vec<(String, V)>)
        ensures
            pairs@.map_values(|e: (String, V)| (e.0@, e.1)) == self@,
            sorted_by_key(self@),
    {
        proof {
            use_type_invariant(&self);
        }
        self.entries
    }
}

/// Text with each ASCII capital letter lowered and every other character
/// kept.
pub open spec fn ascii_lower_text(text: Seq<char>) -> Seq<char> {
    text.map_values(|c: char| if 'A' <= c <= 'Z' {
        ((c as u32) + 32) as char
    } else {
        c
    })
}

/// Whether every character of a text is ASCII.
pub open spec fn is_ascii_text(text: Seq<char>) -> bool {
    forall|i: int| 0 <= i < text.len() ==> (text[i] as u32) < 128
}

/// The byte-wise ASCII lowercase of one byte.
pub open spec fn ascii_lower(b: u8) -> u8 {
    if 65 <= b <= 90 { (b + 32) as u8 } else { b }
}

/// Two byte strings are equal ignoring ASCII case.
pub open spec fn ascii_ci_eq(a: Seq<u8>, b: Seq<u8>) -> bool {
    &&& a.len() == b.len()
    &&& forall|i: int| 0 <= i < a.len() ==> ascii_lower(#[trigger] a[i]) == ascii_lower(b[i])
}

/// Two strings are equal ignoring ASCII case, as `str::eq_ignore_ascii_case`
/// defines it: byte by byte over the UTF-8 encoding.
pub open spec fn same_ignoring_ascii_case(a: Seq<char>, b: Seq<char>) -> bool {
    ascii_ci_eq(encode_utf8(a), encode_utf8(b))
}

/// Compare two strings ignoring ASCII case.
pub fn eq_ignore_ascii_case(a: &str, b: &str) -> (same: bool)
    ensures
        same == same_ignoring_ascii_case(a@, b@),
{
    let x = a.as_bytes();
    let y = b.as_bytes();
    assert(x@ == encode_utf8(a@));
    assert(y@ == encode_utf8(b@));
    if x.len() != y.len() {
        return false;
    }
    let mut i: usize = 0;
    while i < x.len()
        invariant
            x@ == encode_utf8(a@),
            y@ == encode_utf8(b@),
            x@.len() == y@.len(),
            0 <= i <= x@.len(),
            forall|j: int| 0 <= j < i ==> ascii_lower(#[trigger] x@[j]) == ascii_lower(y@[j]),
        decreases x@.len() - i,
    {
        let p = if 65 <= x[i] && x[i] <= 90 { x[i] + 32 } else { x[i] };
        let q = if 65 <= y[i] && y[i] <= 90 { y[i] + 32 } else { y[i] };
        if p != q {
            assert(ascii_lower(x@[i as int]) != ascii_lower(y@[i as int]));
            return false;
        }
        i = i + 1;
    }
    true
}

/// Whether two strings are equal.
pub fn str_eq(a: &str, b: &str) -> (same: bool)
    ensures
        same == (a@ == b@),
{
    key_order(a, b) == KeyOrder::Equal
}

/// Whether an optional string holds exactly `expected`.
pub fn opt_str_is(value: &Option<String>, expected: &str) -> (is: bool)
    ensures
        is == (value matches Some(v) && v@ == expected@),
{
    match value {
        Some(v) => str_eq(v.as_str(), expected),
        None => false,
    }
}

/// The view of an optional string.
pub open spec fn opt_view(value: Option<String>) -> Option<Seq<char>> {
    match value {
        Some(v) => Some(v@),
        None => None,
    }
}

/// A copy of an optional string.
pub fn clone_opt_string(value: &Option<String>) -> (copy: Option<String>)
    ensures
        opt_view(copy) == opt_view(*value),
{
    match value {
        Some(v) => Some(v.clone()),
        None => None,
    }
}

/// What reading bytes as UTF-8 gives when every malformed sequence is
/// replaced by U+FFFD.
pub uninterp spec fn lossy_utf8(bytes: Seq<u8>) -> Seq<char>;

/// Read bytes as text, replacing malformed UTF-8 with U+FFFD.
///
/// Trusted: wraps `String::from_utf8_lossy`, which the standard library
/// documents as returning the text unchanged when the bytes are valid UTF-8
/// and otherwise replacing each invalid sequence with U+FFFD. The contract
/// names the result and states the valid case; how invalid sequences are
/// grouped is left to the name.
#[verifier::external_body]
pub fn lossy_text(bytes: &[u8]) -> (text: String)
    ensures
        text@ == lossy_utf8(bytes@),
        valid_utf8(bytes@) ==> text@ == decode_utf8(bytes@),
{
    String::from_utf8_lossy(bytes).into_owned()
}

/// Whether a character is an ASCII digit.
pub open spec fn is_digit(c: char) -> bool {
    '0' <= c <= '9'
}

/// The value of a non-empty run of ASCII digits.
pub open spec fn digits_value(s: Seq<char>) -> nat
    decreases s.len(),
{
    if s.len() == 0 {
        0
    } else {
        digits_value(s.drop_last()) * 10 + (s.last() as nat - '0' as nat) as nat
    }
}

/// Whether `s` is a non-empty run of ASCII digits.
pub open spec fn all_digits(s: Seq<char>) -> bool {
    s.len() > 0 && forall|i: int| 0 <= i < s.len() ==> is_digit(#[trigger] s[i])
}

/// An unsigned number as `str::parse` reads it: an optional `+`, then one or
/// more ASCII digits, no larger than `max`.
pub open spec fn parse_unsigned(s: Seq<char>, max: nat) -> Option<nat> {
    let digits = if s.len() > 0 && s[0] == '+' {
        s.subrange(1, s.len() as int)
    } else {
        s
    };
    if all_digits(digits) && digits_value(digits) <= max {
        Some(digits_value(digits))
    } else {
        None
    }
}

/// A signed number as `str::parse` reads it: an optional `+` or `-`, then one
/// or more ASCII digits, within `min..=max`.
pub open spec fn parse_signed(s: Seq<char>, min: int, max: int) -> Option<int> {
    if s.len() > 0 && s[0] == '-' {
        let digits = s.subrange(1, s.len() as int);
        if all_digits(digits) && -digits_value(digits) >= min {
            Some(-digits_value(digits))
        } else {
            None
        }
    } else {
        match parse_unsigned(s, max as nat) {
            Some(v) => if max >= 0 {
                Some(v as int)
            } else {
                None
            },
            None => None,
        }
    }
}

/// The digits of `text` from `start` on, as long as they stay within `max`.
fn digits_from(text: &str, start: usize, max: u64) -> (value: Option<u64>)
    requires
        start <= text@.len(),
    ensures
        ({
            let digits = text@.subrange(start as int, text@.len() as int);
            match value {
                Some(v) => all_digits(digits) && digits_value(digits) <= max && v
                    == digits_value(digits),
                None => !(all_digits(digits) && digits_value(digits) <= max),
            }
        }),
{
    let n = text.unicode_len();
    let ghost digits = text@.subrange(start as int, text@.len() as int);
    if start >= n {
        return None;
    }
    let mut value: u64 = 0;
    let mut i: usize = start;
    while i < n
        invariant
            start <= i <= n,
            n == text@.len(),
            digits == text@.subrange(start as int, n as int),
            forall|j: int| start <= j < i ==> is_digit(#[trigger] text@[j]),
            value == digits_value(text@.subrange(start as int, i as int)),
            value <= max,
        decreases n - i,
    {
        let c = text.get_char(i);
        proof {
            assert(text@.subrange(start as int, i + 1).drop_last() =~= text@.subrange(
                start as int,
                i as int,
            ));
        }
        if !('0' <= c && c <= '9') {
            proof {
                assert(digits[i - start] == c);
            }
            return None;
        }
        let d: u64 = (c as u32 - '0' as u32) as u64;
        if d > max || value > (max - d) / 10 {
            proof {
                assert(digits_value(text@.subrange(start as int, i + 1)) == value * 10 + d);
                assert(value * 10 + d > max) by (nonlinear_arith)
                    requires
                        d > max || value > (max - d) / 10,
                        d <= 9,
                ;
                assert(digits.subrange(0, i + 1 - start) =~= text@.subrange(start as int, i + 1));
                assert(digits.subrange(0, digits.len() as int) =~= digits);
                if all_digits(digits) {
                    lemma_digits_grow(digits, i + 1 - start);
                }
            }
            return None;
        }
        assert(value * 10 + d <= max) by (nonlinear_arith)
            requires
                d <= max,
                value <= (max - d) / 10,
        ;
        value = value * 10 + d;
        i = i + 1;
    }
    proof {
        assert(digits =~= text@.subrange(start as int, i as int));
    }
    Some(value)
}

/// A run of digits is worth at least any prefix of it.
proof fn lemma_digits_grow(s: Seq<char>, k: int)
    requires
        0 <= k <= s.len(),
        forall|i: int| 0 <= i < s.len() ==> is_digit(#[trigger] s[i]),
    ensures
        digits_value(s) >= digits_value(s.subrange(0, k)),
    decreases s.len() - k,
{
    if k < s.len() {
        lemma_digits_grow(s, k + 1);
        assert(s.subrange(0, k + 1).drop_last() =~= s.subrange(0, k));
    } else {
        assert(s.subrange(0, k) =~= s);
    }
}

/// Parse an unsigned number no larger than `max`, as `str::parse` does.
pub fn parse_unsigned_str(text: &str, max: u64) -> (value: Option<u64>)
    ensures
        match value {
            Some(v) => parse_unsigned(text@, max as nat) == Some(v as nat),
            None => parse_unsigned(text@, max as nat) is None,
        },
{
    let n = text.unicode_len();
    if n > 0 && text.get_char(0) == '+' {
        digits_from(text, 1, max)
    } else {
        proof {
            assert(text@.subrange(0, text@.len() as int) =~= text@);
        }
        digits_from(text, 0, max)
    }
}

/// Parse an `i64` as `str::parse` does.
pub fn parse_i64_str(text: &str) -> (value: Option<i64>)
    ensures
        match value {
            Some(v) => parse_signed(text@, i64::MIN as int, i64::MAX as int) == Some(v as int),
            None => parse_signed(text@, i64::MIN as int, i64::MAX as int) is None,
        },
{
    let n = text.unicode_len();
    if n > 0 && text.get_char(0) == '-' {
        match digits_from(text, 1, 9_223_372_036_854_775_808u64) {
            Some(magnitude) => {
                if magnitude == 9_223_372_036_854_775_808u64 {
                    Some(i64::MIN)
                } else {
                    Some(-(magnitude as i64))
                }
            },
            None => {
                proof {
                    let digits = text@.subrange(1, text@.len() as int);
                    assert(!(all_digits(digits) && -digits_value(digits) >= i64::MIN));
                }
                None
            },
        }
    } else {
        match parse_unsigned_str(text, i64::MAX as u64) {
            Some(v) => Some(v as i64),
            None => None,
        }
    }
}

/// What the last record under `key` holds.
pub open spec fn last_of<W>(records: Seq<(Seq<char>, W)>, key: Seq<char>) -> Option<W>
    decreases records.len(),
{
    if records.len() == 0 {
        None
    } else if records.last().0 == key {
        Some(records.last().1)
    } else {
        last_of(records.drop_last(), key)
    }
}

/// `map` holds one entry per key of `records`, each related by `rel` to what
/// the last record under its key holds.
pub open spec fn keyed_by_last<V, W>(
    map: Seq<(Seq<char>, V)>,
    records: Seq<(Seq<char>, W)>,
    rel: spec_fn(V, W) -> bool,
) -> bool {
    &&& forall|k: Seq<char>| #[trigger] has_key(map, k) <==> last_of(records, k) is Some
    &&& forall|i: int| 0 <= i < map.len() ==> rel(#[trigger] map[i].1, last_of(records, map[i].0)->0)
}

/// Inserting what a new last record stands for keeps a map keyed by the last
/// records.
pub proof fn lemma_keyed_step<V, W>(
    before: Seq<(Seq<char>, V)>,
    after: Seq<(Seq<char>, V)>,
    records: Seq<(Seq<char>, W)>,
    key: Seq<char>,
    w: W,
    v: V,
    rel: spec_fn(V, W) -> bool,
)
    requires
        keyed_by_last(before, records, rel),
        forall|e: (Seq<char>, V)|
            #![trigger after.contains(e)]
            #![trigger before.contains(e)]
            after.contains(e) <==> (e == (key, v) || (before.contains(e) && e.0 != key)),
        rel(v, w),
    ensures
        keyed_by_last(after, records.push((key, w)), rel),
{
    let next = records.push((key, w));
    assert(next.drop_last() =~= records);
    assert forall|k: Seq<char>| #[trigger] has_key(after, k) <==> last_of(next, k) is Some by {
        assert(last_of(next, k) == if k == key {
            Some(w)
        } else {
            last_of(records, k)
        });
        if k == key {
            assert(after.contains((key, v)));
            let x = choose|x: int| 0 <= x < after.len() && after[x] == (key, v);
            assert(after[x].0 == k);
            assert(has_key(after, k));
        } else {
            if has_key(after, k) {
                let x = choose|x: int| 0 <= x < after.len() && #[trigger] after[x].0 == k;
                assert(after.contains(after[x]));
                assert(before.contains(after[x]));
                let y = choose|y: int| 0 <= y < before.len() && before[y] == after[x];
                assert(before[y].0 == k);
                assert(has_key(before, k));
            }
            if last_of(next, k) is Some {
                assert(has_key(before, k));
                let y = choose|y: int| 0 <= y < before.len() && #[trigger] before[y].0 == k;
                assert(before.contains(before[y]));
                assert(after.contains(before[y]));
                let x = choose|x: int| 0 <= x < after.len() && after[x] == before[y];
                assert(after[x].0 == k);
                assert(has_key(after, k));
            }
        }
    }
    assert forall|i: int| 0 <= i < after.len() implies rel(
        #[trigger] after[i].1,
        last_of(next, after[i].0)->0,
    ) by {
        assert(after.contains(after[i]));
        let k = after[i].0;
        assert(last_of(next, k) == if k == key {
            Some(w)
        } else {
            last_of(records, k)
        });
        if after[i] != (key, v) {
            assert(before.contains(after[i]));
            let y = choose|y: int| 0 <= y < before.len() && before[y] == after[i];
            assert(rel(before[y].1, last_of(records, before[y].0)->0));
        }
    }
}

/// Bytes read one for one as characters, as they are where the bytes are ASCII.
pub open spec fn ascii_text(bytes: Seq<u8>) -> Seq<char> {
    bytes.map_values(|b: u8| b as char)
}

/// A hexadecimal digit, in lower case.
pub open spec fn hex_char(d: nat) -> char {
    if d < 10 {
        ((d + 48) as u8) as char
    } else {
        ((d + 87) as u8) as char
    }
}

/// Whether `{:?}` writes the character with this code (below 256) as itself:
/// the printable ASCII characters and the printable Latin-1 ones, which leave
/// out the no-break space and the soft hyphen.
pub open spec fn prints_plain(b: u8) -> bool {
    (32 <= b <= 126) || (161 <= b && b != 173)
}

/// How `{:?}` writes the character whose code is `b`: in single quotes, with
/// the escapes Rust uses for a `char`, and `\u{..}` for what is not printable.
pub open spec fn char_debug(b: u8) -> Seq<char> {
    let body = if b == 0 {
        seq!['\\', '0']
    } else if b == 9 {
        seq!['\\', 't']
    } else if b == 10 {
        seq!['\\', 'n']
    } else if b == 13 {
        seq!['\\', 'r']
    } else if b == 39 {
        seq!['\\', '\'']
    } else if b == 92 {
        seq!['\\', '\\']
    } else if prints_plain(b) {
        seq![b as char]
    } else if b < 16 {
        seq!['\\', 'u', '{', hex_char(b as nat), '}']
    } else {
        seq!['\\', 'u', '{', hex_char((b / 16) as nat), hex_char((b % 16) as nat), '}']
    };
    seq!['\''] + body + seq!['\'']
}

fn hex(d: u8) -> (c: char)
    requires
        d < 16,
    ensures
        c == hex_char(d as nat),
{
    if d < 10 {
        (d + 48) as char
    } else {
        (d + 87) as char
    }
}

/// Append how `{:?}` writes the character whose code is `b`.
pub fn push_char_debug(text: &mut String, b: u8)
    ensures
        final(text)@ == old(text)@ + char_debug(b),
{
    let ghost start = text@;
    push_char(text, '\'');
    if b == 0 {
        push_char(text, '\\');
        push_char(text, '0');
    } else if b == 9 {
        push_char(text, '\\');
        push_char(text, 't');
    } else if b == 10 {
        push_char(text, '\\');
        push_char(text, 'n');
    } else if b == 13 {
        push_char(text, '\\');
        push_char(text, 'r');
    } else if b == 39 {
        push_char(text, '\\');
        push_char(text, '\'');
    } else if b == 92 {
        push_char(text, '\\');
        push_char(text, '\\');
    } else if (32 <= b && b <= 126) || (161 <= b && b != 173) {
        push_char(text, b as char);
    } else if b < 16 {
        push_char(text, '\\');
        push_char(text, 'u');
        push_char(text, '{');
        push_char(text, hex(b));
        push_char(text, '}');
    } else {
        push_char(text, '\\');
        push_char(text, 'u');
        push_char(text, '{');
        push_char(text, hex(b / 16));
        push_char(text, hex(b % 16));
        push_char(text, '}');
    }
    push_char(text, '\'');
    proof {
        assert(text@ =~= start + char_debug(b));
    }
}

} // verus!
