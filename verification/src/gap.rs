//! Knowing which characters exist but have not been captured yet.
//!
//! The collector only records the character you are logged in as, so a roster
//! fills up one login at a time. Until it is full, any advice about *which*
//! character to play is being given while blind to the rest — and a confident
//! recommendation drawn from three of eighteen characters is worse than an
//! honest one that says what it cannot see.
//!
//! The game itself keeps a folder per character ever logged in, so the full
//! roster can be learned without any addon at all. Reading those folders is
//! the caller's job: this module is pure. It only compares.

use vstd::prelude::*;
use vstd::utf8::encode_utf8;

use crate::collector::{display_name_of, CharacterRecord};
use crate::coaching::texts_of;
use crate::order::{sort_stable, stable_sorted, total_preorder};
use crate::text::{
    ascending_keys, ascii_ci_eq, ascii_lower, decimal, eq_ignore_ascii_case, key_lt, key_order,
    lemma_key_lt_transitive, lemma_key_order, push_decimal, push_str, same_ignoring_ascii_case,
    opt_view, sorted_by_key, str_eq, to_owned_string, KeyOrder, StrMap,
};

verus! {

broadcast use vstd::utf8::group_utf8_lib;

/// A character the game knows about, learned from somewhere other than the
/// collector — normally a folder name.
#[derive(Debug, Clone, PartialEq, Eq)]
pub struct KnownCharacter {
    /// The flavor directory this was found under, e.g. `_anniversary_`. Kept
    /// as found rather than mapped to a flavor name, because the mapping is
    /// the reader's guess and this is meant to be evidence.
    pub flavor_dir: Option<String>,
    pub realm: String,
    pub name: String,
}

/// What the collector has, against what the game says exists.
#[derive(Debug, Clone, Default, PartialEq)]
pub struct RosterGap {
    /// Characters with captured data.
    pub captured: Vec<String>,
    /// Characters the game knows about that have never been captured.
    pub unseen: Vec<KnownCharacter>,
}

/// Names joined with commas.
pub open spec fn comma_joined(names: Seq<Seq<char>>) -> Seq<char>
    decreases names.len(),
{
    if names.len() == 0 {
        Seq::empty()
    } else if names.len() == 1 {
        names[0]
    } else {
        comma_joined(names.drop_last()) + ", "@ + names.last()
    }
}

/// The sentence that reports a gap.
pub open spec fn gap_text(captured: nat, total: nat, names: Seq<Seq<char>>) -> Seq<char> {
    "Showing "@ + decimal(captured) + " of "@ + decimal(total) + " characters. Not yet captured: "@
        + comma_joined(names) + ". Log in on each once, then log out, to include it."@
}

impl RosterGap {
    pub fn total(&self) -> (n: usize)
        requires
            self.captured@.len() + self.unseen@.len() <= usize::MAX,
        ensures
            n == self.captured@.len() + self.unseen@.len(),
    {
        self.captured.len() + self.unseen.len()
    }

    pub fn is_complete(&self) -> (complete: bool)
        ensures
            complete == (self.unseen@.len() == 0),
    {
        self.unseen.len() == 0
    }

    /// A sentence for the reader, or nothing when there is no gap to report.
    pub fn summary(&self) -> (text: Option<String>)
        requires
            self.captured@.len() + self.unseen@.len() <= u64::MAX,
        ensures
            match text {
                None => self.unseen@.len() == 0,
                Some(t) => self.unseen@.len() > 0 && t@ == gap_text(
                    self.captured@.len(),
                    self.captured@.len() + self.unseen@.len(),
                    self.unseen@.map_values(|c: KnownCharacter| c.name@),
                ),
            },
    {
        if self.is_complete() {
            return None;
        }
        let mut text = to_owned_string("Showing ");
        push_decimal(&mut text, self.captured.len() as u64);
        push_str(&mut text, " of ");
        push_decimal(&mut text, self.captured.len() as u64 + self.unseen.len() as u64);
        push_str(&mut text, " characters. Not yet captured: ");
        let ghost lead = text@;
        let ghost names = self.unseen@.map_values(|c: KnownCharacter| c.name@);
        let mut i: usize = 0;
        while i < self.unseen.len()
            invariant
                0 <= i <= self.unseen@.len(),
                names == self.unseen@.map_values(|c: KnownCharacter| c.name@),
                text@ == lead + comma_joined(names.take(i as int)),
            decreases self.unseen@.len() - i,
        {
            proof {
                assert(names.take(i + 1).drop_last() =~= names.take(i as int));
                if i == 0 {
                    assert(names.take(1) =~= seq![names[0]]);
                }
            }
            if i > 0 {
                push_str(&mut text, ", ");
            }
            push_str(&mut text, self.unseen[i].name.as_str());
            proof {
                assert(text@ =~= lead + comma_joined(names.take(i + 1)));
            }
            i = i + 1;
        }
        proof {
            assert(names.take(names.len() as int) =~= names);
        }
        push_str(&mut text, ". Log in on each once, then log out, to include it.");
        Some(text)
    }
}

/// `i` is where the first `-` sits in a byte string.
pub open spec fn first_dash_at(bytes: Seq<u8>, i: int) -> bool {
    &&& 0 <= i < bytes.len()
    &&& bytes[i] == 45
    &&& forall|j: int| 0 <= j < i ==> bytes[j] != 45
}

/// `c` is shadowed by a plainer name in the same flavor: its name is
/// hyphenated and another name in `known`, not its own, matches the part
/// before the first hyphen, ignoring ASCII case.
pub open spec fn shadowed(c: KnownCharacter, known: Seq<KnownCharacter>) -> bool {
    exists|i: int, p: int|
        #![trigger first_dash_at(encode_utf8(c.name@), i), known[p]]
        first_dash_at(encode_utf8(c.name@), i) && 0 <= p < known.len() && opt_view(
            known[p].flavor_dir,
        ) == opt_view(c.flavor_dir) && ascii_ci_eq(
            encode_utf8(known[p].name@),
            encode_utf8(c.name@).take(i),
        ) && known[p].name@ != c.name@
}

/// `known` less the names that shadow a plainer one.
pub open spec fn unshadowed(known: Seq<KnownCharacter>, all: Seq<KnownCharacter>) -> Seq<
    KnownCharacter,
>
    decreases known.len(),
{
    if known.len() == 0 {
        Seq::empty()
    } else {
        let rest = unshadowed(known.drop_last(), all);
        if shadowed(known.last(), all) {
            rest
        } else {
            rest.push(known.last())
        }
    }
}

/// Some captured record is this character: the name matches ignoring ASCII
/// case, and the realm too where both sides know it. A record with no realm
/// still matches on name, because a wrong match only hides a character from
/// the gap list, while a missed match invents one that does not exist.
pub open spec fn captured_as(c: KnownCharacter, records: Seq<(Seq<char>, CharacterRecord)>) -> bool {
    exists|i: int|
        0 <= i < records.len() && #[trigger] record_is(records[i].1, c)
}

pub open spec fn record_is(record: CharacterRecord, c: KnownCharacter) -> bool {
    &&& record.name matches Some(name) && same_ignoring_ascii_case(name@, c.name@)
    &&& match record.realm {
        Some(realm) => c.realm@.len() == 0 || same_ignoring_ascii_case(realm@, c.realm@),
        None => true,
    }
}

/// The known characters no record accounts for, in order.
pub open spec fn uncaptured(known: Seq<KnownCharacter>, records: Seq<(Seq<char>, CharacterRecord)>) -> Seq<
    KnownCharacter,
>
    decreases known.len(),
{
    if known.len() == 0 {
        Seq::empty()
    } else {
        let rest = uncaptured(known.drop_last(), records);
        if captured_as(known.last(), records) {
            rest
        } else {
            rest.push(known.last())
        }
    }
}

/// Two entries name the same character: name and realm match ignoring ASCII
/// case.
pub open spec fn same_character(a: KnownCharacter, b: KnownCharacter) -> bool {
    same_ignoring_ascii_case(a.name@, b.name@) && same_ignoring_ascii_case(a.realm@, b.realm@)
}

/// Consecutive entries naming the same character, collapsed to the first.
pub open spec fn collapsed(s: Seq<KnownCharacter>) -> Seq<KnownCharacter>
    decreases s.len(),
{
    if s.len() == 0 {
        Seq::empty()
    } else {
        let rest = collapsed(s.drop_last());
        if rest.len() > 0 && same_character(s.last(), rest.last()) {
            rest
        } else {
            rest.push(s.last())
        }
    }
}

/// Known characters in order of name.
pub open spec fn known_by_name(a: KnownCharacter, b: KnownCharacter) -> bool {
    !key_lt(b.name@, a.name@)
}

/// `out` is `input` stably sorted by name.
pub open spec fn sorted_by_name(out: Seq<KnownCharacter>, input: Seq<KnownCharacter>) -> bool {
    stable_sorted(out, input, |a: KnownCharacter, b: KnownCharacter| known_by_name(a, b))
}

fn copy_known(c: &KnownCharacter) -> (copy: KnownCharacter)
    ensures
        copy == *c,
{
    KnownCharacter {
        flavor_dir: match &c.flavor_dir {
            Some(dir) => Some(dir.clone()),
            None => None,
        },
        realm: c.realm.clone(),
        name: c.name.clone(),
    }
}

/// Whether `a` equals the first `n` bytes of `b`, ignoring ASCII case.
fn ci_eq_prefix(a: &[u8], b: &[u8], n: usize) -> (same: bool)
    requires
        n <= b@.len(),
    ensures
        same == ascii_ci_eq(a@, b@.take(n as int)),
{
    if a.len() != n {
        return false;
    }
    let mut i: usize = 0;
    while i < n
        invariant
            0 <= i <= n,
            n <= b@.len(),
            a@.len() == n,
            forall|j: int| 0 <= j < i ==> ascii_lower(#[trigger] a@[j]) == ascii_lower(b@[j]),
        decreases n - i,
    {
        let p = if 65 <= a[i] && a[i] <= 90 {
            a[i] + 32
        } else {
            a[i]
        };
        let q = if 65 <= b[i] && b[i] <= 90 {
            b[i] + 32
        } else {
            b[i]
        };
        if p != q {
            assert(ascii_lower(a@[i as int]) != ascii_lower(b@.take(n as int)[i as int]));
            return false;
        }
        i = i + 1;
    }
    assert(forall|j: int| 0 <= j < n ==> b@.take(n as int)[j] == b@[j]);
    true
}

fn same_flavor(a: &Option<String>, b: &Option<String>) -> (same: bool)
    ensures
        same == (opt_view(*a) == opt_view(*b)),
{
    match (a, b) {
        (Some(x), Some(y)) => str_eq(x.as_str(), y.as_str()),
        (None, None) => true,
        _ => false,
    }
}

fn is_shadowed(c: &KnownCharacter, known: &Vec<KnownCharacter>) -> (found: bool)
    ensures
        found == shadowed(*c, known@),
{
    let bytes = c.name.as_str().as_bytes();
    let ghost b = encode_utf8(c.name@);
    assert(bytes@ == b);
    let mut d: usize = 0;
    while d < bytes.len() && bytes[d] != 45
        invariant
            0 <= d <= bytes@.len(),
            bytes@ == b,
            forall|j: int| 0 <= j < d ==> bytes@[j] != 45,
        decreases bytes@.len() - d,
    {
        d = d + 1;
    }
    if d == bytes.len() {
        proof {
            assert forall|i: int| !#[trigger] first_dash_at(b, i) by {
                if 0 <= i < b.len() {
                    assert(bytes@[i] != 45);
                }
            }
        }
        return false;
    }
    proof {
        assert(first_dash_at(b, d as int));
        assert forall|i: int| #[trigger] first_dash_at(b, i) implies i == d by {
            if i < d {
                assert(bytes@[i] != 45);
            } else if i > d {
                assert(b[d as int] == 45);
            }
        }
    }
    let mut p: usize = 0;
    while p < known.len()
        invariant
            0 <= p <= known@.len(),
            bytes@ == b,
            b == encode_utf8(c.name@),
            d < b.len(),
            first_dash_at(b, d as int),
            forall|i: int| #[trigger] first_dash_at(b, i) ==> i == d,
            forall|q: int|
                0 <= q < p ==> !(opt_view(known@[q].flavor_dir) == opt_view(c.flavor_dir)
                    && ascii_ci_eq(encode_utf8((#[trigger] known@[q]).name@), b.take(d as int))
                    && known@[q].name@ != c.name@),
        decreases known@.len() - p,
    {
        let other = &known[p];
        let other_bytes = other.name.as_str().as_bytes();
        assert(other_bytes@ == encode_utf8(other.name@));
        if same_flavor(&other.flavor_dir, &c.flavor_dir) && ci_eq_prefix(other_bytes, bytes, d)
            && !str_eq(other.name.as_str(), c.name.as_str()) {
            proof {
                assert(first_dash_at(encode_utf8(c.name@), d as int));
            }
            return true;
        }
        p = p + 1;
    }
    false
}

/// Remove folder names that shadow a plainer one in the same flavor.
///
/// The Forever client writes two trees: the real character folder sits under a
/// numeric realm with a name like `Gravehexx-Gravehex`, while the folder whose
/// name matches what the game's API actually reports — `Gravehexx` — is a stub
/// holding only an addon list. The suffix's meaning is not established, so
/// rather than guess at it, a hyphenated name is dropped when its leading part
/// is also present.
fn drop_shadowed(known: Vec<KnownCharacter>) -> (kept: Vec<KnownCharacter>)
    ensures
        kept@ == unshadowed(known@, known@),
{
    let mut kept: Vec<KnownCharacter> = Vec::new();
    let mut i: usize = 0;
    while i < known.len()
        invariant
            0 <= i <= known@.len(),
            kept@ == unshadowed(known@.take(i as int), known@),
        decreases known@.len() - i,
    {
        proof {
            assert(known@.take(i + 1).drop_last() =~= known@.take(i as int));
        }
        if !is_shadowed(&known[i], &known) {
            kept.push(copy_known(&known[i]));
        }
        i = i + 1;
    }
    proof {
        assert(known@.take(known@.len() as int) =~= known@);
    }
    kept
}

fn is_captured(c: &KnownCharacter, characters: &StrMap<CharacterRecord>) -> (found: bool)
    ensures
        found == captured_as(*c, characters@),
{
    let mut i: usize = 0;
    while i < characters.len()
        invariant
            0 <= i <= characters@.len(),
            forall|j: int| 0 <= j < i ==> !record_is(#[trigger] characters@[j].1, *c),
        decreases characters@.len() - i,
    {
        let (_, record) = characters.entry(i);
        let name_matches = match &record.name {
            Some(name) => eq_ignore_ascii_case(name.as_str(), c.name.as_str()),
            None => false,
        };
        let realm_matches = match &record.realm {
            Some(realm) => c.realm.as_str().is_empty() || eq_ignore_ascii_case(
                realm.as_str(),
                c.realm.as_str(),
            ),
            None => true,
        };
        if name_matches && realm_matches {
            proof {
                assert(record_is(characters@[i as int].1, *c));
            }
            return true;
        }
        i = i + 1;
    }
    false
}

proof fn lemma_known_by_name()
    ensures
        total_preorder(|a: KnownCharacter, b: KnownCharacter| known_by_name(a, b)),
{
    assert forall|a: KnownCharacter| #[trigger] known_by_name(a, a) by {
        lemma_key_order(a.name@, a.name@);
    }
    assert forall|a: KnownCharacter, b: KnownCharacter| #[trigger]
        known_by_name(a, b) || known_by_name(b, a) by {
        lemma_key_order(a.name@, b.name@);
    }
    assert forall|a: KnownCharacter, b: KnownCharacter, c: KnownCharacter|
        #[trigger] known_by_name(a, b) && #[trigger] known_by_name(b, c) implies known_by_name(
        a,
        c,
    ) by {
        lemma_key_order(a.name@, b.name@);
        lemma_key_order(b.name@, c.name@);
        lemma_key_order(a.name@, c.name@);
        if key_lt(c.name@, a.name@) && key_lt(a.name@, b.name@) {
            lemma_key_lt_transitive(c.name@, a.name@, b.name@);
        }
        if key_lt(b.name@, c.name@) && key_lt(c.name@, a.name@) {
            lemma_key_lt_transitive(b.name@, c.name@, a.name@);
        }
    }
}

fn name_earlier(a: &KnownCharacter, b: &KnownCharacter) -> (earlier: bool)
    ensures
        earlier == key_lt(a.name@, b.name@),
{
    key_order(a.name.as_str(), b.name.as_str()) == KeyOrder::Less
}

/// The names the records are shown under.
pub open spec fn captured_name(records: Seq<(Seq<char>, CharacterRecord)>, k: Seq<char>) -> bool {
    exists|i: int|
        0 <= i < records.len() && display_name_of(records[i].1, records[i].0) == k
}

/// Compare what the game knows against what the collector captured.
///
/// `captured` is every name a record is shown under, once each, in order.
/// `unseen` is every known character no record accounts for — after dropping
/// names that shadow a plainer one — sorted by name, with consecutive entries
/// naming the same character collapsed to the first.
pub fn find_gap(known: &[KnownCharacter], characters: &StrMap<CharacterRecord>) -> (gap: RosterGap)
    ensures
        ascending_keys(texts_of(gap.captured@)),
        forall|k: Seq<char>| #[trigger]
            texts_of(gap.captured@).contains(k) <==> captured_name(characters@, k),
        exists|d: Seq<KnownCharacter>|
            #[trigger] sorted_by_name(d, uncaptured(unshadowed(known@, known@), characters@))
                && gap.unseen@ == collapsed(d),
{
    // The names, once each and in order.
    let mut names: StrMap<bool> = StrMap::new();
    let mut i: usize = 0;
    while i < characters.len()
        invariant
            0 <= i <= characters@.len(),
            sorted_by_key(names@),
            forall|e: (Seq<char>, bool)| #[trigger] names@.contains(e) ==> e.1,
            forall|k: Seq<char>| #[trigger]
                names@.contains((k, true)) <==> exists|j: int|
                    0 <= j < i && display_name_of(characters@[j].1, characters@[j].0) == k,
        decreases characters@.len() - i,
    {
        let (key, record) = characters.entry(i);
        let name = record.display_name(key.as_str());
        names.insert(to_owned_string(name), true);
        proof {
            assert forall|k: Seq<char>| #[trigger]
                names@.contains((k, true)) <==> exists|j: int|
                    0 <= j < i + 1 && display_name_of(characters@[j].1, characters@[j].0) == k by {
                if k == name@ {
                    assert(display_name_of(characters@[i as int].1, characters@[i as int].0) == k);
                }
            }
        }
        i = i + 1;
    }
    let keys = names.keys();
    let mut captured: Vec<String> = Vec::new();
    let mut x: usize = 0;
    while x < keys.len()
        invariant
            0 <= x <= keys@.len(),
            keys@.len() == names@.len(),
            forall|y: int| 0 <= y < keys@.len() ==> (#[trigger] keys@[y])@ == names@[y].0,
            captured@.len() == x,
            forall|y: int| 0 <= y < x ==> (#[trigger] captured@[y])@ == names@[y].0,
        decreases keys@.len() - x,
    {
        captured.push(keys[x].clone());
        x = x + 1;
    }
    proof {
        let t = texts_of(captured@);
        assert forall|a: int, b: int| 0 <= a < b < t.len() implies key_lt(
            #[trigger] t[a],
            #[trigger] t[b],
        ) by {
            assert(t[a] == names@[a].0 && t[b] == names@[b].0);
        }
        assert forall|k: Seq<char>| #[trigger] t.contains(k) <==> captured_name(characters@, k) by {
            if t.contains(k) {
                let y = choose|y: int| 0 <= y < t.len() && t[y] == k;
                assert(names@.contains(names@[y]));
                assert(names@[y] == (k, true));
            }
            if captured_name(characters@, k) {
                let j = choose|j: int|
                    0 <= j < characters@.len() && display_name_of(characters@[j].1, characters@[j].0)
                        == k;
                assert(names@.contains((k, true)));
                let y = choose|y: int| 0 <= y < names@.len() && names@[y] == (k, true);
                assert(t[y] == k);
            }
        }
    }
    // The known characters nobody captured.
    let mut all: Vec<KnownCharacter> = Vec::new();
    let mut i: usize = 0;
    while i < known.len()
        invariant
            0 <= i <= known@.len(),
            all@ == known@.take(i as int),
        decreases known@.len() - i,
    {
        all.push(copy_known(&known[i]));
        proof {
            assert(all@ =~= known@.take(i + 1));
        }
        i = i + 1;
    }
    proof {
        assert(known@.take(known@.len() as int) =~= known@);
    }
    let kept = drop_shadowed(all);
    let mut unseen: Vec<KnownCharacter> = Vec::new();
    let mut i: usize = 0;
    while i < kept.len()
        invariant
            0 <= i <= kept@.len(),
            unseen@ == uncaptured(kept@.take(i as int), characters@),
        decreases kept@.len() - i,
    {
        proof {
            assert(kept@.take(i + 1).drop_last() =~= kept@.take(i as int));
        }
        if !is_captured(&kept[i], characters) {
            unseen.push(copy_known(&kept[i]));
        }
        i = i + 1;
    }
    proof {
        assert(kept@.take(kept@.len() as int) =~= kept@);
        lemma_known_by_name();
    }
    let ghost filtered = unseen@;
    let sorted = sort_stable(
        unseen,
        Ghost(|a: KnownCharacter, b: KnownCharacter| known_by_name(a, b)),
        name_earlier,
    );
    proof {
        assert(sorted_by_name(sorted@, filtered));
    }
    // Consecutive entries naming the same character collapse to the first.
    let mut distinct: Vec<KnownCharacter> = Vec::new();
    let mut i: usize = 0;
    while i < sorted.len()
        invariant
            0 <= i <= sorted@.len(),
            distinct@ == collapsed(sorted@.take(i as int)),
        decreases sorted@.len() - i,
    {
        proof {
            assert(sorted@.take(i + 1).drop_last() =~= sorted@.take(i as int));
        }
        let c = &sorted[i];
        let repeat = if distinct.len() > 0 {
            let last = &distinct[distinct.len() - 1];
            eq_ignore_ascii_case(c.name.as_str(), last.name.as_str()) && eq_ignore_ascii_case(
                c.realm.as_str(),
                last.realm.as_str(),
            )
        } else {
            false
        };
        if !repeat {
            distinct.push(copy_known(c));
        }
        i = i + 1;
    }
    proof {
        assert(sorted@.take(sorted@.len() as int) =~= sorted@);
    }
    RosterGap { captured, unseen: distinct }
}

proof fn lemma_uncaptured_members(known: Seq<KnownCharacter>, records: Seq<(Seq<char>, CharacterRecord)>)
    ensures
        forall|k: int|
            0 <= k < uncaptured(known, records).len() ==> !captured_as(
                #[trigger] uncaptured(known, records)[k],
                records,
            ),
    decreases known.len(),
{
    if known.len() > 0 {
        lemma_uncaptured_members(known.drop_last(), records);
        let rest = uncaptured(known.drop_last(), records);
        assert forall|k: int| 0 <= k < rest.len() implies uncaptured(known, records)[k]
            == rest[k] by {}
    }
}

proof fn lemma_collapsed_members(s: Seq<KnownCharacter>)
    ensures
        forall|k: int|
            0 <= k < collapsed(s).len() ==> exists|j: int|
                0 <= j < s.len() && s[j] == #[trigger] collapsed(s)[k],
    decreases s.len(),
{
    if s.len() > 0 {
        lemma_collapsed_members(s.drop_last());
        let rest = collapsed(s.drop_last());
        assert forall|k: int| 0 <= k < collapsed(s).len() implies exists|j: int|
            0 <= j < s.len() && s[j] == #[trigger] collapsed(s)[k] by {
            if k < rest.len() {
                assert(collapsed(s)[k] == rest[k]);
                let j = choose|j: int| 0 <= j < s.drop_last().len() && s.drop_last()[j] == rest[k];
                assert(s[j] == rest[k]);
            } else {
                assert(s[s.len() - 1] == collapsed(s)[k]);
            }
        }
    }
}

/// A character the collector has captured is never reported as unseen.
pub proof fn captured_characters_are_never_unseen(
    known: Seq<KnownCharacter>,
    records: Seq<(Seq<char>, CharacterRecord)>,
    d: Seq<KnownCharacter>,
    k: int,
)
    requires
        sorted_by_name(d, uncaptured(unshadowed(known, known), records)),
        0 <= k < collapsed(d).len(),
    ensures
        !captured_as(collapsed(d)[k], records),
{
    let input = uncaptured(unshadowed(known, known), records);
    lemma_uncaptured_members(unshadowed(known, known), records);
    lemma_collapsed_members(d);
    let j = choose|j: int| 0 <= j < d.len() && d[j] == #[trigger] collapsed(d)[k];
    crate::order::lemma_sorted_member(
        d,
        input,
        |a: KnownCharacter, b: KnownCharacter| known_by_name(a, b),
        j,
    );
    let i = choose|i: int| 0 <= i < input.len() && d[j] == #[trigger] input[i];
    assert(!captured_as(input[i], records));
}

proof fn lemma_unshadowed_has(known: Seq<KnownCharacter>, all: Seq<KnownCharacter>, p: int)
    requires
        0 <= p < known.len(),
        !shadowed(known[p], all),
    ensures
        unshadowed(known, all).contains(known[p]),
    decreases known.len(),
{
    let rest = unshadowed(known.drop_last(), all);
    if p < known.len() - 1 {
        lemma_unshadowed_has(known.drop_last(), all, p);
        let x = choose|x: int| 0 <= x < rest.len() && rest[x] == known.drop_last()[p];
        if !shadowed(known.last(), all) {
            assert(unshadowed(known, all)[x] == rest[x]);
        }
    } else {
        assert(unshadowed(known, all) == rest.push(known.last()));
        assert(unshadowed(known, all)[rest.len() as int] == known[p]);
    }
}

proof fn lemma_uncaptured_has(
    known: Seq<KnownCharacter>,
    records: Seq<(Seq<char>, CharacterRecord)>,
    c: KnownCharacter,
)
    requires
        known.contains(c),
        !captured_as(c, records),
    ensures
        uncaptured(known, records).contains(c),
    decreases known.len(),
{
    let rest = uncaptured(known.drop_last(), records);
    if known.last() == c {
        assert(uncaptured(known, records) == rest.push(c));
        assert(uncaptured(known, records)[rest.len() as int] == c);
    } else {
        let x = choose|x: int| 0 <= x < known.len() && known[x] == c;
        assert(known.drop_last()[x] == c);
        lemma_uncaptured_has(known.drop_last(), records, c);
        let y = choose|y: int| 0 <= y < rest.len() && rest[y] == c;
        if !captured_as(known.last(), records) {
            assert(uncaptured(known, records)[y] == rest[y]);
        } else {
            assert(uncaptured(known, records)[y] == c);
        }
    }
}

proof fn lemma_collapsed_covers(s: Seq<KnownCharacter>, j: int)
    requires
        0 <= j < s.len(),
    ensures
        exists|m: int|
            0 <= m < collapsed(s).len() && same_character(s[j], #[trigger] collapsed(s)[m]),
    decreases s.len(),
{
    let rest = collapsed(s.drop_last());
    if j < s.len() - 1 {
        lemma_collapsed_covers(s.drop_last(), j);
        let m = choose|m: int|
            0 <= m < rest.len() && same_character(s.drop_last()[j], #[trigger] rest[m]);
        assert(collapsed(s)[m] == rest[m]);
    } else if rest.len() > 0 && same_character(s.last(), rest.last()) {
        assert(collapsed(s)[rest.len() - 1] == rest.last());
    } else {
        assert(collapsed(s)[rest.len() as int] == s.last());
    }
}

/// A character on another realm does not capture this one: a known character
/// with a realm, that no plainer name shadows, is reported unseen whenever
/// every captured record with its name sits on a realm that differs from its
/// own, ignoring ASCII case.
pub proof fn another_realm_does_not_capture(
    known: Seq<KnownCharacter>,
    records: Seq<(Seq<char>, CharacterRecord)>,
    d: Seq<KnownCharacter>,
    p: int,
)
    requires
        sorted_by_name(d, uncaptured(unshadowed(known, known), records)),
        0 <= p < known.len(),
        known[p].realm@.len() > 0,
        !shadowed(known[p], known),
        forall|i: int|
            0 <= i < records.len() && ((#[trigger] records[i]).1.name matches Some(n)
                && same_ignoring_ascii_case(n@, known[p].name@)) ==> (records[i].1.realm matches Some(
                r,
            ) && !same_ignoring_ascii_case(r@, known[p].realm@)),
    ensures
        exists|m: int|
            0 <= m < collapsed(d).len() && same_ignoring_ascii_case(
                known[p].name@,
                (#[trigger] collapsed(d)[m]).name@,
            ) && same_ignoring_ascii_case(known[p].realm@, collapsed(d)[m].realm@),
{
    let c = known[p];
    let u = unshadowed(known, known);
    let input = uncaptured(u, records);
    lemma_unshadowed_has(known, known, p);
    assert(!captured_as(c, records)) by {
        if captured_as(c, records) {
            let i = choose|i: int| 0 <= i < records.len() && #[trigger] record_is(records[i].1, c);
            assert(records[i].1.name is Some);
        }
    }
    lemma_uncaptured_has(u, records, c);
    let x = choose|x: int| 0 <= x < input.len() && input[x] == c;
    let order = |a: KnownCharacter, b: KnownCharacter| known_by_name(a, b);
    let q = choose|q: Seq<int>| crate::order::stable_arrangement(d, input, q, order);
    crate::order::lemma_permutation_onto(q, input.len() as int, x);
    let k = choose|k: int| 0 <= k < q.len() && #[trigger] q[k] == x;
    assert(d[k] == c);
    lemma_collapsed_covers(d, k);
}

} // verus!
