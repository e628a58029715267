//! Keeping what the collector would otherwise overwrite.
//!
//! The addon rewrites each character's record on every capture, so without
//! somewhere to put the previous state, history is discarded continuously.
//! Snapshots are append-only and deduplicated by capture time, so recording
//! the same file twice is harmless and the store can be replayed from scratch.

use vstd::prelude::*;

use crate::collector::{display_name_of, CharacterRecord, Skill};
use crate::identity::{trim, trim_str};
use crate::text::push_char;
use vstd::string::*;
use crate::order::{
    lemma_stable_first, lemma_stable_last, sort_stable, stable_sorted, total_preorder,
};
use crate::text::{
    ascending_keys, clone_opt_string, has_key, key_lt, key_order, key_position,
    lemma_ascending_keys_unique, lemma_key_lt_transitive, lemma_key_order, lemma_unique_key,
    opt_view, sorted_by_key, str_eq, to_owned_string, value_of, KeyOrder, StrMap,
};

verus! {

/// A point in one character's history. Deliberately smaller than the full
/// record: this is appended forever, so it keeps what is worth trending and
/// drops what is not.
#[derive(Debug, Clone, PartialEq)]
pub struct Snapshot {
    pub key: String,
    pub name: String,
    /// Unix epoch seconds, from the capture itself rather than from when it
    /// was recorded — so replaying an old file lands it in the right place.
    pub captured_at: i64,
    pub level: Option<u16>,
    pub xp: Option<u64>,
    pub max_xp: Option<u64>,
    pub rested_xp: Option<u64>,
    pub money_copper: Option<u64>,
    pub zone: Option<String>,
    pub quest_count: Option<usize>,
    pub free_bag_slots: Option<u32>,
    /// Profession name to rank. A map because professions come and go.
    pub skills: StrMap<u16>,
}

/// The (name, rank) pairs a skill list contributes, in order: a skill counts
/// only when both are known.
pub open spec fn skill_pairs(skills: Seq<Skill>) -> Seq<(Seq<char>, u16)>
    decreases skills.len(),
{
    if skills.len() == 0 {
        Seq::empty()
    } else {
        let rest = skill_pairs(skills.drop_last());
        let last = skills.last();
        match (last.name, last.rank) {
            (Some(name), Some(rank)) => rest.push((name@, rank)),
            _ => rest,
        }
    }
}

/// The map that inserting `pairs` in order produces: each key holds the value
/// of its last pair.
pub open spec fn last_wins(pairs: Seq<(Seq<char>, u16)>, e: (Seq<char>, u16)) -> bool {
    exists|i: int|
        0 <= i < pairs.len() && #[trigger] pairs[i] == e && forall|j: int|
            i < j < pairs.len() ==> (#[trigger] pairs[j]).0 != e.0
}

impl Snapshot {
    pub fn from_record(key: &str, record: &CharacterRecord) -> (snapshot: Option<Self>)
        ensures
            match snapshot {
                None => record.captured_at is None,
                Some(s) => {
                    &&& record.captured_at == Some(s.captured_at)
                    &&& s.key@ == key@
                    &&& s.name@ == display_name_of(*record, key@)
                    &&& s.level == record.level
                    &&& s.xp == record.xp
                    &&& s.max_xp == record.max_xp
                    &&& s.rested_xp == record.rested_xp
                    &&& s.money_copper == record.money_copper
                    &&& opt_view(s.zone) == opt_view(record.zone)
                    &&& s.quest_count == match record.quests {
                        Some(q) => Some(q@.len() as usize),
                        None => None,
                    }
                    &&& s.free_bag_slots == match record.inventory {
                        Some(inventory) => inventory.free_slots,
                        None => None,
                    }
                    &&& sorted_by_key(s.skills@)
                    &&& forall|e: (Seq<char>, u16)| #[trigger]
                        s.skills@.contains(e) <==> last_wins(
                            match record.skills {
                                Some(skills) => skill_pairs(skills@),
                                None => Seq::empty(),
                            },
                            e,
                        )
                },
            },
    {
        let captured_at = match record.captured_at {
            Some(at) => at,
            None => return None,
        };
        let mut skills: StrMap<u16> = StrMap::new();
        let ghost mut pairs: Seq<(Seq<char>, u16)> = Seq::empty();
        if let Some(list) = &record.skills {
            let mut i: usize = 0;
            while i < list.len()
                invariant
                    0 <= i <= list@.len(),
                    pairs == skill_pairs(list@.take(i as int)),
                    sorted_by_key(skills@),
                    forall|e: (Seq<char>, u16)| #[trigger]
                        skills@.contains(e) <==> last_wins(pairs, e),
                decreases list@.len() - i,
            {
                let skill = &list[i];
                proof {
                    assert(list@.take(i + 1).drop_last() =~= list@.take(i as int));
                    assert(list@.take(i + 1).last() == list@[i as int]);
                }
                match (&skill.name, skill.rank) {
                    (Some(name), Some(rank)) => {
                        let ghost old_pairs = pairs;
                        skills.insert(name.clone(), rank);
                        proof {
                            pairs = pairs.push((name@, rank));
                            assert forall|e: (Seq<char>, u16)| #[trigger]
                                skills@.contains(e) <==> last_wins(pairs, e) by {
                                lemma_last_wins_push(old_pairs, (name@, rank), e);
                            }
                        }
                    },
                    _ => {},
                }
                i = i + 1;
            }
            proof {
                assert(list@.take(list@.len() as int) =~= list@);
            }
        }
        let zone = clone_opt_string(&record.zone);
        let quest_count = record.quest_count();
        let free_bag_slots = record.free_bag_slots();
        skills.lemma_sorted();
        Some(Snapshot {
            key: to_owned_string(key),
            name: to_owned_string(record.display_name(key)),
            captured_at,
            level: record.level,
            xp: record.xp,
            max_xp: record.max_xp,
            rested_xp: record.rested_xp,
            money_copper: record.money_copper,
            zone,
            quest_count,
            free_bag_slots,
            skills,
        })
    }
}

/// Every snapshot we hold, in no particular order until asked.
#[derive(Debug, Clone, Default, PartialEq)]
pub struct History {
    snapshots: Vec<Snapshot>,
}

impl View for History {
    type V = Seq<Snapshot>;

    closed spec fn view(&self) -> Seq<Snapshot> {
        self.snapshots@
    }
}

/// The same capture: one character at one moment.
pub open spec fn same_capture(a: Snapshot, b: Snapshot) -> bool {
    a.key@ == b.key@ && a.captured_at == b.captured_at
}

/// Some held snapshot is the same capture as `snapshot`.
pub open spec fn holds_capture(held: Seq<Snapshot>, snapshot: Snapshot) -> bool {
    exists|i: int| 0 <= i < held.len() && same_capture(#[trigger] held[i], snapshot)
}

/// The store after recording `snapshot`: appended unless the same capture is
/// already held.
pub open spec fn with_capture(held: Seq<Snapshot>, snapshot: Snapshot) -> Seq<Snapshot> {
    if holds_capture(held, snapshot) {
        held
    } else {
        held.push(snapshot)
    }
}

/// Recording the same capture twice changes nothing: the second recording
/// finds the capture held and leaves the store as the first left it.
pub proof fn recording_twice_is_recording_once(held: Seq<Snapshot>, snapshot: Snapshot)
    ensures
        holds_capture(with_capture(held, snapshot), snapshot),
        with_capture(with_capture(held, snapshot), snapshot) == with_capture(held, snapshot),
{
    let once = with_capture(held, snapshot);
    if !holds_capture(held, snapshot) {
        assert(same_capture(once[held.len() as int], snapshot));
    }
}

/// Recording never loses a snapshot: what was held stays, in place.
pub proof fn recording_keeps_what_was_held(held: Seq<Snapshot>, snapshot: Snapshot)
    ensures
        with_capture(held, snapshot).len() >= held.len(),
        forall|i: int| 0 <= i < held.len() ==> #[trigger] with_capture(held, snapshot)[i] == held[i],
{
}

/// One character's snapshots, in storage order.
pub open spec fn snapshots_of(s: Seq<Snapshot>, key: Seq<char>) -> Seq<Snapshot>
    decreases s.len(),
{
    if s.len() == 0 {
        Seq::empty()
    } else if s.last().key@ == key {
        snapshots_of(s.drop_last(), key).push(s.last())
    } else {
        snapshots_of(s.drop_last(), key)
    }
}

/// Oldest first: ordered by capture time.
pub open spec fn by_capture_time(a: Snapshot, b: Snapshot) -> bool {
    a.captured_at <= b.captured_at
}

/// `s[i]` is the snapshot a character's latest entry holds: no later capture
/// of the same character, and no earlier one at the same time.
pub open spec fn is_latest(s: Seq<Snapshot>, i: int) -> bool {
    &&& 0 <= i < s.len()
    &&& forall|j: int|
        0 <= j < s.len() && (#[trigger] s[j]).key@ == s[i].key@ ==> s[j].captured_at
            <= s[i].captured_at && (j < i ==> s[j].captured_at < s[i].captured_at)
}

impl History {
    pub fn new(snapshots: Vec<Snapshot>) -> (history: Self)
        ensures
            history@ == snapshots@,
    {
        History { snapshots }
    }

    pub fn snapshots(&self) -> (all: &[Snapshot])
        ensures
            all@ == self@,
    {
        self.snapshots.as_slice()
    }

    pub fn len(&self) -> (n: usize)
        ensures
            n == self@.len(),
    {
        self.snapshots.len()
    }

    pub fn is_empty(&self) -> (empty: bool)
        ensures
            empty == (self@.len() == 0),
    {
        self.snapshots.len() == 0
    }

    /// Add a snapshot unless the same capture is already held.
    ///
    /// Deduplicating on capture time rather than on content means running the
    /// tool repeatedly between game sessions records nothing, which is what
    /// makes automatic recording safe.
    pub fn record(&mut self, snapshot: Snapshot) -> (added: bool)
        ensures
            added == !holds_capture(old(self)@, snapshot),
            final(self)@ == with_capture(old(self)@, snapshot),
    {
        let mut i: usize = 0;
        while i < self.snapshots.len()
            invariant
                0 <= i <= self@.len(),
                self@ == old(self)@,
                forall|j: int| 0 <= j < i ==> !same_capture(#[trigger] self@[j], snapshot),
            decreases self@.len() - i,
        {
            let held = &self.snapshots[i];
            if held.captured_at == snapshot.captured_at && str_eq(
                held.key.as_str(),
                snapshot.key.as_str(),
            ) {
                proof {
                    assert(same_capture(self@[i as int], snapshot));
                }
                return false;
            }
            i = i + 1;
        }
        self.snapshots.push(snapshot);
        true
    }

    /// One character's snapshots, oldest first. Captures at the same moment
    /// keep the order they were recorded in.
    pub fn for_character(&self, key: &str) -> (found: Vec<&Snapshot>)
        ensures
            stable_sorted(
                found@.map_values(|s: &Snapshot| *s),
                snapshots_of(self@, key@),
                |a: Snapshot, b: Snapshot| by_capture_time(a, b),
            ),
    {
        let mut found: Vec<&Snapshot> = Vec::new();
        let mut i: usize = 0;
        while i < self.snapshots.len()
            invariant
                0 <= i <= self@.len(),
                found@.map_values(|s: &Snapshot| *s) == snapshots_of(self@.take(i as int), key@),
            decreases self@.len() - i,
        {
            let snapshot = &self.snapshots[i];
            proof {
                assert(self@.take(i + 1).drop_last() =~= self@.take(i as int));
                assert(self@.take(i + 1).last() == self@[i as int]);
            }
            if str_eq(snapshot.key.as_str(), key) {
                found.push(snapshot);
                proof {
                    assert(found@.map_values(|s: &Snapshot| *s) =~= snapshots_of(
                        self@.take(i as int),
                        key@,
                    ).push(self@[i as int]));
                }
            }
            i = i + 1;
        }
        proof {
            assert(self@.take(self@.len() as int) =~= self@);
        }
        let ghost le = |a: &Snapshot, b: &Snapshot| a.captured_at <= b.captured_at;
        let sorted = sort_stable(
            found,
            Ghost(le),
            captured_earlier,
        );
        proof {
            lemma_deref_sorted(sorted@, found@, le, |a: Snapshot, b: Snapshot| by_capture_time(a, b));
        }
        sorted
    }

    /// Every character we hold history for, with its most recent snapshot.
    /// Of two captures at the same latest moment, the one recorded first is
    /// kept.
    pub fn latest_per_character(&self) -> (latest: StrMap<&Snapshot>)
        ensures
            sorted_by_key(latest@),
            forall|e: (Seq<char>, &Snapshot)| #[trigger]
                latest@.contains(e) <==> exists|i: int|
                    is_latest(self@, i) && e.0 == self@[i].key@ && *e.1 == #[trigger] self@[i],
    {
        let mut latest: StrMap<&Snapshot> = StrMap::new();
        let mut i: usize = 0;
        while i < self.snapshots.len()
            invariant
                0 <= i <= self@.len(),
                sorted_by_key(latest@),
                forall|e: (Seq<char>, &Snapshot)| #[trigger]
                    latest@.contains(e) <==> exists|k: int|
                        is_latest(self@.take(i as int), k) && e.0 == self@[k].key@ && *e.1
                            == #[trigger] self@[k],
            decreases self@.len() - i,
        {
            let snapshot = &self.snapshots[i];
            let ghost prefix = self@.take(i as int);
            let ghost next = self@.take(i + 1);
            let ghost before = latest@;
            let replace = match latest.get(snapshot.key.as_str()) {
                Some(held) => snapshot.captured_at > held.captured_at,
                None => true,
            };
            if replace {
                latest.insert(snapshot.key.clone(), snapshot);
            }
            proof {
                lemma_latest_step(self@, i as int, before, latest@, replace);
            }
            i = i + 1;
        }
        proof {
            assert(self@.take(self@.len() as int) =~= self@);
        }
        latest
    }
}

/// Appending a pair makes it the value of its key and leaves the other keys
/// alone.
proof fn lemma_last_wins_push(pairs: Seq<(Seq<char>, u16)>, p: (Seq<char>, u16), e: (Seq<char>, u16))
    ensures
        last_wins(pairs.push(p), e) <==> (e == p || (last_wins(pairs, e) && e.0 != p.0)),
{
    let next = pairs.push(p);
    let n = pairs.len() as int;
    assert(next[n] == p);
    if last_wins(next, e) {
        let k = choose|k: int|
            0 <= k < next.len() && #[trigger] next[k] == e && forall|j: int|
                k < j < next.len() ==> (#[trigger] next[j]).0 != e.0;
        if k < n {
            assert(next[n].0 != e.0);
            assert(pairs[k] == e);
            assert forall|j: int| k < j < pairs.len() implies (#[trigger] pairs[j]).0 != e.0 by {
                assert(next[j] == pairs[j]);
            }
        }
    }
    if e == p {
        assert(last_wins(next, e));
    } else if last_wins(pairs, e) && e.0 != p.0 {
        let k = choose|k: int|
            0 <= k < pairs.len() && #[trigger] pairs[k] == e && forall|j: int|
                k < j < pairs.len() ==> (#[trigger] pairs[j]).0 != e.0;
        assert(next[k] == e);
        assert forall|j: int| k < j < next.len() implies (#[trigger] next[j]).0 != e.0 by {
            if j < n {
                assert(next[j] == pairs[j]);
            }
        }
    }
}

/// Whether `a` was captured strictly before `b`.
fn captured_earlier(a: &&Snapshot, b: &&Snapshot) -> (earlier: bool)
    ensures
        earlier == (a.captured_at < b.captured_at),
{
    a.captured_at < b.captured_at
}

/// Sorting references sorts the values they point to.
proof fn lemma_deref_sorted(
    sorted: Seq<&Snapshot>,
    input: Seq<&Snapshot>,
    le_ref: spec_fn(&Snapshot, &Snapshot) -> bool,
    le: spec_fn(Snapshot, Snapshot) -> bool,
)
    requires
        stable_sorted(sorted, input, le_ref),
        forall|a: &Snapshot, b: &Snapshot| #[trigger] le_ref(a, b) == le(*a, *b),
    ensures
        stable_sorted(
            sorted.map_values(|s: &Snapshot| *s),
            input.map_values(|s: &Snapshot| *s),
            le,
        ),
{
    let p = choose|p: Seq<int>| crate::order::stable_arrangement(sorted, input, p, le_ref);
    let out = sorted.map_values(|s: &Snapshot| *s);
    let inp = input.map_values(|s: &Snapshot| *s);
    assert(crate::order::stable_arrangement(out, inp, p, le)) by {
        assert forall|i: int, j: int| 0 <= i < j < out.len() implies le(
            #[trigger] out[i],
            #[trigger] out[j],
        ) && (le(out[j], out[i]) ==> p[i] < p[j]) by {
            assert(le_ref(sorted[i], sorted[j]));
        }
    }
}

/// One step of building the latest-per-character map.
#[verifier::spinoff_prover]
#[verifier::rlimit(40)]
proof fn lemma_latest_step(
    s: Seq<Snapshot>,
    i: int,
    before: Seq<(Seq<char>, &Snapshot)>,
    after: Seq<(Seq<char>, &Snapshot)>,
    replaced: bool,
)
    requires
        0 <= i < s.len(),
        sorted_by_key(before),
        forall|e: (Seq<char>, &Snapshot)| #[trigger]
            before.contains(e) <==> exists|k: int|
                is_latest(s.take(i), k) && e.0 == s[k].key@ && *e.1 == #[trigger] s[k],
        replaced == match value_of(before, s[i].key@) {
            Some(held) => s[i].captured_at > held.captured_at,
            None => true,
        },
        replaced ==> sorted_by_key(after) && forall|e: (Seq<char>, &Snapshot)|
            #[trigger] after.contains(e) <==> (e == (s[i].key@, &s[i]) || (before.contains(e)
                && e.0 != s[i].key@)),
        !replaced ==> after == before,
    ensures
        sorted_by_key(after),
        forall|e: (Seq<char>, &Snapshot)| #[trigger]
            after.contains(e) <==> exists|k: int|
                is_latest(s.take(i + 1), k) && e.0 == s[k].key@ && *e.1 == #[trigger] s[k],
{
    let prefix = s.take(i);
    let next = s.take(i + 1);
    let key = s[i].key@;
    assert forall|k: int| 0 <= k < i implies #[trigger] next[k] == prefix[k] && prefix[k] == s[k] by {}
    assert(next[i] == s[i]);
    // For keys other than `key`, latest status is unchanged.
    assert forall|k: int| 0 <= k < i && s[k].key@ != key implies is_latest(next, k) == is_latest(prefix, k) by {
        if is_latest(prefix, k) {
            assert forall|j: int| 0 <= j < next.len() && (#[trigger] next[j]).key@ == next[k].key@ implies next[j].captured_at
                <= next[k].captured_at && (j < k ==> next[j].captured_at < next[k].captured_at) by {
                assert(j < i);
                assert(prefix[j] == next[j]);
            }
        }
        if is_latest(next, k) {
            assert forall|j: int| 0 <= j < prefix.len() && (#[trigger] prefix[j]).key@ == prefix[k].key@ implies prefix[j].captured_at
                <= prefix[k].captured_at && (j < k ==> prefix[j].captured_at < prefix[k].captured_at) by {
                assert(prefix[j] == next[j]);
            }
        }
    }
    if has_key(before, key) {
        let pos = crate::text::key_position(before, key);
        lemma_unique_key(before, pos, key);
        let held = before[pos];
        assert(before.contains(held));
        let h = choose|k: int| is_latest(prefix, k) && held.0 == s[k].key@ && *held.1 == #[trigger] s[k];
        assert(*held.1 == s[h]);
        if replaced {
            // The new capture is strictly later than every earlier one.
            assert(is_latest(next, i)) by {
                assert forall|j: int| 0 <= j < next.len() && (#[trigger] next[j]).key@ == next[i].key@ implies next[j].captured_at
                    <= next[i].captured_at && (j < i ==> next[j].captured_at < next[i].captured_at) by {
                    if j < i {
                        assert(prefix[j] == next[j]);
                    }
                }
            }
            assert forall|k: int| 0 <= k < i && s[k].key@ == key implies !is_latest(next, k) by {
                assert(next[i].key@ == next[k].key@);
            }
        } else {
            assert(is_latest(next, h)) by {
                assert forall|j: int| 0 <= j < next.len() && (#[trigger] next[j]).key@ == next[h].key@ implies next[j].captured_at
                    <= next[h].captured_at && (j < h ==> next[j].captured_at < next[h].captured_at) by {
                    if j < i {
                        assert(prefix[j] == next[j]);
                    }
                }
            }
            assert(!is_latest(next, i)) by {
                assert(next[h].key@ == next[i].key@);
            }
            assert forall|k: int| 0 <= k < i && s[k].key@ == key && k != h implies !is_latest(next, k) by {
                if is_latest(next, k) {
                    assert(next[h].key@ == next[k].key@);
                    assert(next[k].key@ == next[h].key@);
                }
            }
        }
    } else {
        assert(replaced);
        assert(is_latest(next, i)) by {
            assert forall|j: int| 0 <= j < next.len() && (#[trigger] next[j]).key@ == next[i].key@ implies next[j].captured_at
                <= next[i].captured_at && (j < i ==> next[j].captured_at < next[i].captured_at) by {
                if j < i {
                    assert(prefix[j] == next[j]);
                    // No earlier capture of this key exists, or it would be in the map.
                    assert(false) by {
                        lemma_some_latest(prefix, j);
                        let m = choose|m: int| is_latest(prefix, m) && prefix[m].key@ == prefix[j].key@;
                        assert(before.contains((s[m].key@, &s[m])));
                        let q = choose|q: int| 0 <= q < before.len() && before[q] == (s[m].key@, &s[m]);
                        assert(before[q].0 == key);
                    }
                }
            }
        }
    }
    assert forall|e: (Seq<char>, &Snapshot)| #[trigger]
        after.contains(e) <==> exists|k: int|
            is_latest(next, k) && e.0 == s[k].key@ && *e.1 == #[trigger] s[k] by {
        if after.contains(e) {
            if replaced && e == (key, &s[i]) {
                assert(is_latest(next, i) && e.0 == s[i].key@ && *e.1 == s[i]);
            } else {
                assert(before.contains(e));
                let k = choose|k: int| is_latest(prefix, k) && e.0 == s[k].key@ && *e.1 == #[trigger] s[k];
                if e.0 == key {
                    assert(!replaced);
                    let pos = crate::text::key_position(before, key);
                    let q = choose|q: int| 0 <= q < before.len() && before[q] == e;
                    lemma_unique_key(before, q, key);
                    let h = choose|k: int| is_latest(prefix, k) && before[pos].0 == s[k].key@ && *before[pos].1 == #[trigger] s[k];
                    assert(is_latest(next, h));
                    assert(*e.1 == s[h]);
                } else {
                    assert(is_latest(next, k));
                }
            }
        }
        if exists|k: int| is_latest(next, k) && e.0 == s[k].key@ && *e.1 == #[trigger] s[k] {
            let k = choose|k: int| is_latest(next, k) && e.0 == s[k].key@ && *e.1 == #[trigger] s[k];
            if k == i {
                assert(replaced);
            } else if e.0 != key {
                assert(is_latest(prefix, k));
                assert(before.contains(e));
            } else {
                assert(!replaced);
                assert(is_latest(prefix, k)) by {
                    assert forall|j: int| 0 <= j < prefix.len() && (#[trigger] prefix[j]).key@ == prefix[k].key@ implies prefix[j].captured_at
                        <= prefix[k].captured_at && (j < k ==> prefix[j].captured_at < prefix[k].captured_at) by {
                        assert(prefix[j] == next[j]);
                    }
                }
                assert(before.contains(e));
            }
        }
    }
}

/// Every character in a non-empty prefix has some latest snapshot.
proof fn lemma_some_latest(s: Seq<Snapshot>, j: int)
    requires
        0 <= j < s.len(),
    ensures
        exists|m: int| is_latest(s, m) && s[m].key@ == s[j].key@,
    decreases s.len(),
{
    if s.len() == 1 {
        assert(is_latest(s, 0));
    } else {
        let t = s.drop_last();
        let last = s.len() - 1;
        if j == last {
            // Either an earlier capture of this key is the latest of the
            // prefix, or the last one is.
            let same = exists|k: int| 0 <= k < t.len() && t[k].key@ == s[j].key@;
            if same {
                let k = choose|k: int| 0 <= k < t.len() && t[k].key@ == s[j].key@;
                lemma_some_latest(t, k);
                let m = choose|m: int| is_latest(t, m) && t[m].key@ == t[k].key@;
                assert(t[m] == s[m]);
                if s[last].captured_at > s[m].captured_at {
                    assert(is_latest(s, last)) by {
                        assert forall|x: int| 0 <= x < s.len() && (#[trigger] s[x]).key@ == s[last].key@ implies s[x].captured_at
                            <= s[last].captured_at && (x < last ==> s[x].captured_at < s[last].captured_at) by {
                            if x < last {
                                assert(t[x] == s[x]);
                            }
                        }
                    }
                } else {
                    assert(is_latest(s, m)) by {
                        assert forall|x: int| 0 <= x < s.len() && (#[trigger] s[x]).key@ == s[m].key@ implies s[x].captured_at
                            <= s[m].captured_at && (x < m ==> s[x].captured_at < s[m].captured_at) by {
                            if x < last {
                                assert(t[x] == s[x]);
                            }
                        }
                    }
                }
            } else {
                assert(is_latest(s, last)) by {
                    assert forall|x: int| 0 <= x < s.len() && (#[trigger] s[x]).key@ == s[last].key@ implies s[x].captured_at
                        <= s[last].captured_at && (x < last ==> s[x].captured_at < s[last].captured_at) by {
                        if x < last {
                            assert(t[x] == s[x]);
                        }
                    }
                }
            }
        } else {
            assert(t[j] == s[j]);
            lemma_some_latest(t, j);
            let m = choose|m: int| is_latest(t, m) && t[m].key@ == t[j].key@;
            assert(t[m] == s[m]);
            if s[last].key@ == s[j].key@ && s[last].captured_at > s[m].captured_at {
                assert(is_latest(s, last)) by {
                    assert forall|x: int| 0 <= x < s.len() && (#[trigger] s[x]).key@ == s[last].key@ implies s[x].captured_at
                        <= s[last].captured_at && (x < last ==> s[x].captured_at < s[last].captured_at) by {
                        if x < last {
                            assert(t[x] == s[x]);
                        }
                    }
                }
            } else {
                assert(is_latest(s, m)) by {
                    assert forall|x: int| 0 <= x < s.len() && (#[trigger] s[x]).key@ == s[m].key@ implies s[x].captured_at
                        <= s[m].captured_at && (x < m ==> s[x].captured_at < s[m].captured_at) by {
                        if x < last {
                            assert(t[x] == s[x]);
                        }
                    }
                }
            }
        }
    }
}

/// How much XP was gained between two snapshots.
#[derive(Debug, Clone, Copy, PartialEq, Eq, Structural)]
pub enum XpGain {
    /// Exact: no level change, or a single level where the old maximum is known.
    Exact(u64),
    /// More than one level passed, so the intermediate level sizes are unknown
    /// and this is a floor rather than a figure.
    AtLeast(u64),
    /// Not enough captured to say.
    Unknown,
}

/// What changed between two points for one character.
#[derive(Debug, Clone, PartialEq)]
pub struct Delta {
    pub name: String,
    pub from: i64,
    pub to: i64,
    pub levels_gained: i32,
    pub xp: XpGain,
    /// Positive for earned, negative for spent.
    pub copper: Option<i64>,
    pub skills: StrMap<i32>,
    pub zone: Option<String>,
}

/// Nothing worth reporting happened.
pub open spec fn idle(d: Delta) -> bool {
    &&& d.levels_gained == 0
    &&& (d.xp == XpGain::Exact(0) || d.xp == XpGain::Unknown)
    &&& d.copper.unwrap_or(0) == 0
    &&& d.skills@.len() == 0
}

impl Delta {
    /// True when nothing happened worth reporting.
    pub fn is_idle(&self) -> (quiet: bool)
        ensures
            quiet == idle(*self),
            self.copper matches Some(c) && c != 0 ==> !quiet,
            self.levels_gained != 0 ==> !quiet,
            self.skills@.len() > 0 ==> !quiet,
            self.xp matches XpGain::AtLeast(_) ==> !quiet,
            self.xp matches XpGain::Exact(x) && x > 0 ==> !quiet,
    {
        let no_xp = match self.xp {
            XpGain::Exact(gained) => gained == 0,
            XpGain::AtLeast(_) => false,
            XpGain::Unknown => true,
        };
        let no_copper = match self.copper {
            Some(change) => change == 0,
            None => true,
        };
        self.levels_gained == 0 && no_xp && no_copper && self.skills.is_empty()
    }
}

/// Levels gained: zero unless both levels are known.
pub open spec fn levels_change(before: Snapshot, after: Snapshot) -> int {
    match (before.level, after.level) {
        (Some(from), Some(to)) => to - from,
        _ => 0,
    }
}

/// `a - b`, or zero where that would go below zero.
pub open spec fn sat_sub(a: u64, b: u64) -> int {
    if a >= b {
        a - b
    } else {
        0
    }
}

/// What was left of the old level plus progress into the new one.
pub open spec fn across_levels(before_max: u64, before_xp: u64, after_xp: u64) -> int {
    sat_sub(before_max, before_xp) + after_xp
}

/// The XP gained between two captures. Within a level it is the difference;
/// across one level it is the rest of the old level plus progress into the
/// new one; across several it is only a floor, since the sizes of the levels
/// in between were never captured.
pub open spec fn xp_gain_of(before: Snapshot, after: Snapshot) -> XpGain {
    let levels = levels_change(before, after);
    if levels == 0 {
        match (before.xp, after.xp) {
            (Some(from), Some(to)) => XpGain::Exact(sat_sub(to, from) as u64),
            _ => XpGain::Unknown,
        }
    } else if levels >= 1 {
        match (before.xp, after.xp, before.max_xp) {
            (Some(from), Some(to), Some(max)) => if levels == 1 {
                XpGain::Exact(across_levels(max, from, to) as u64)
            } else {
                XpGain::AtLeast(across_levels(max, from, to) as u64)
            },
            _ => XpGain::Unknown,
        }
    } else {
        XpGain::Unknown
    }
}

/// The change in copper, each amount taken as an `i64`.
pub open spec fn copper_change(before: u64, after: u64) -> int {
    (after as i64) - (before as i64)
}

/// The change in copper, when both amounts were captured.
pub open spec fn copper_change_of(before: Snapshot, after: Snapshot) -> Option<i64> {
    match (before.money_copper, after.money_copper) {
        (Some(from), Some(to)) => Some(copper_change(from, to) as i64),
        _ => None,
    }
}

/// The rank a skill map gives a profession, zero when it has none.
pub open spec fn rank_or_zero(skills: Seq<(Seq<char>, u16)>, name: Seq<char>) -> int {
    match value_of(skills, name) {
        Some(rank) => rank as int,
        None => 0,
    }
}

/// `e` is a profession whose rank changed, with the change: a profession
/// first seen in `after` counts from zero.
pub open spec fn skill_changed(
    before: Seq<(Seq<char>, u16)>,
    after: Seq<(Seq<char>, u16)>,
    e: (Seq<char>, i32),
) -> bool {
    match value_of(after, e.0) {
        Some(rank) => e.1 == rank - rank_or_zero(before, e.0) && e.1 != 0,
        None => false,
    }
}

/// The arithmetic of comparing two captures fits its integer types.
pub open spec fn delta_defined(before: Snapshot, after: Snapshot) -> bool {
    &&& (levels_change(before, after) >= 1 ==> match (before.xp, after.xp, before.max_xp) {
        (Some(from), Some(to), Some(max)) => across_levels(max, from, to) <= u64::MAX,
        _ => true,
    })
    &&& match (before.money_copper, after.money_copper) {
        (Some(from), Some(to)) => i64::MIN <= copper_change(from, to) <= i64::MAX,
        _ => true,
    }
}

/// `d` is what changed from `before` to `after`.
pub open spec fn is_delta(d: Delta, before: Snapshot, after: Snapshot) -> bool {
    &&& d.name@ == after.name@
    &&& d.from == before.captured_at
    &&& d.to == after.captured_at
    &&& d.levels_gained == levels_change(before, after)
    &&& d.xp == xp_gain_of(before, after)
    &&& d.copper == copper_change_of(before, after)
    &&& sorted_by_key(d.skills@)
    &&& forall|e: (Seq<char>, i32)| #[trigger]
        d.skills@.contains(e) <==> skill_changed(before.skills@, after.skills@, e)
    &&& opt_view(d.zone) == opt_view(after.zone)
}

/// Compare two snapshots of the same character.
pub fn delta(before: &Snapshot, after: &Snapshot) -> (change: Delta)
    requires
        delta_defined(*before, *after),
    ensures
        is_delta(change, *before, *after),
{
    let levels_gained: i32 = match (before.level, after.level) {
        (Some(from), Some(to)) => to as i32 - from as i32,
        _ => 0,
    };
    // Crossing a level resets XP to near zero, so a naive subtraction reads as
    // a large loss. What was actually gained is the remainder of the old level
    // plus progress into the new one — which needs the old level's maximum.
    let xp = if levels_gained == 0 {
        match (before.xp, after.xp) {
            (Some(from), Some(to)) => XpGain::Exact(to.saturating_sub(from)),
            _ => XpGain::Unknown,
        }
    } else if levels_gained >= 1 {
        match (before.xp, after.xp, before.max_xp) {
            (Some(from), Some(to), Some(max)) => {
                let gained = max.saturating_sub(from) + to;
                if levels_gained == 1 {
                    XpGain::Exact(gained)
                } else {
                    XpGain::AtLeast(gained)
                }
            },
            _ => XpGain::Unknown,
        }
    } else {
        XpGain::Unknown
    };
    let copper = match (before.money_copper, after.money_copper) {
        (Some(from), Some(to)) => Some(to as i64 - from as i64),
        _ => None,
    };
    before.skills.lemma_sorted();
    after.skills.lemma_sorted();
    let mut skills: StrMap<i32> = StrMap::new();
    let n = after.skills.len();
    let mut i: usize = 0;
    while i < n
        invariant
            0 <= i <= n,
            n == after.skills@.len(),
            sorted_by_key(after.skills@),
            sorted_by_key(before.skills@),
            sorted_by_key(skills@),
            forall|e: (Seq<char>, i32)| #[trigger]
                skills@.contains(e) <==> exists|j: int|
                    0 <= j < i && (#[trigger] after.skills@[j]).0 == e.0 && e.1
                        == after.skills@[j].1 - rank_or_zero(before.skills@, e.0) && e.1 != 0,
        decreases n - i,
    {
        let (name, after_rank) = after.skills.entry(i);
        let before_rank: u16 = match before.skills.get(name.as_str()) {
            Some(rank) => *rank,
            None => 0,
        };
        let change: i32 = *after_rank as i32 - before_rank as i32;
        let ghost old_skills = skills@;
        if change != 0 {
            skills.insert(name.clone(), change);
        }
        proof {
            assert(before_rank == rank_or_zero(before.skills@, name@));
            assert forall|e: (Seq<char>, i32)| #[trigger]
                skills@.contains(e) <==> exists|j: int|
                    0 <= j < i + 1 && (#[trigger] after.skills@[j]).0 == e.0 && e.1
                        == after.skills@[j].1 - rank_or_zero(before.skills@, e.0) && e.1 != 0 by {
                if e.0 == name@ {
                    assert forall|j: int| 0 <= j < i implies (#[trigger] after.skills@[j]).0 != name@ by {
                        lemma_key_order(after.skills@[j].0, name@);
                    }
                    if exists|j: int|
                        0 <= j < i + 1 && (#[trigger] after.skills@[j]).0 == e.0 && e.1
                            == after.skills@[j].1 - rank_or_zero(before.skills@, e.0) && e.1 != 0 {
                        assert(change != 0);
                    }
                }
            }
        }
        i = i + 1;
    }
    proof {
        assert forall|e: (Seq<char>, i32)| #[trigger]
            skills@.contains(e) <==> skill_changed(before.skills@, after.skills@, e) by {
            if skills@.contains(e) {
                let j = choose|j: int|
                    0 <= j < n && (#[trigger] after.skills@[j]).0 == e.0 && e.1
                        == after.skills@[j].1 - rank_or_zero(before.skills@, e.0) && e.1 != 0;
                lemma_unique_key(after.skills@, j, e.0);
            }
            if skill_changed(before.skills@, after.skills@, e) {
                let j = key_position(after.skills@, e.0);
                assert(after.skills@[j].0 == e.0);
            }
        }
    }
    Delta {
        name: after.name.clone(),
        from: before.captured_at,
        to: after.captured_at,
        levels_gained,
        xp,
        copper,
        skills,
        zone: clone_opt_string(&after.zone),
    }
}

/// `own[i]` is the oldest capture: none earlier, and none at the same moment
/// recorded before it.
pub open spec fn is_oldest(own: Seq<Snapshot>, i: int) -> bool {
    &&& 0 <= i < own.len()
    &&& forall|j: int|
        0 <= j < own.len() ==> own[i].captured_at <= (#[trigger] own[j]).captured_at && (j < i
            ==> own[j].captured_at > own[i].captured_at)
}

/// `own[i]` is the newest capture: none later, and none at the same moment
/// recorded after it.
pub open spec fn is_newest(own: Seq<Snapshot>, i: int) -> bool {
    &&& 0 <= i < own.len()
    &&& forall|j: int|
        0 <= j < own.len() ==> (#[trigger] own[j]).captured_at <= own[i].captured_at && (j > i
            ==> own[j].captured_at < own[i].captured_at)
}

/// Every span a character's history covers can be compared.
pub open spec fn spans_defined(s: Seq<Snapshot>, key: Seq<char>) -> bool {
    let own = snapshots_of(s, key);
    forall|i: int, j: int|
        #![trigger is_oldest(own, i), is_newest(own, j)]
        is_oldest(own, i) && is_newest(own, j) && own[i].captured_at != own[j].captured_at
            ==> delta_defined(own[i], own[j])
}

/// A sorted run of one character's snapshots starts at its oldest capture
/// and ends at its newest.
pub(crate) proof fn lemma_run_ends(sorted: Seq<&Snapshot>, own: Seq<Snapshot>)
    requires
        stable_sorted(
            sorted.map_values(|s: &Snapshot| *s),
            own,
            |a: Snapshot, b: Snapshot| by_capture_time(a, b),
        ),
        sorted.len() > 0,
    ensures
        exists|i: int| is_oldest(own, i) && own[i] == *sorted[0],
        exists|j: int| is_newest(own, j) && own[j] == *sorted[sorted.len() - 1],
{
    let out = sorted.map_values(|s: &Snapshot| *s);
    let le = |a: Snapshot, b: Snapshot| by_capture_time(a, b);
    lemma_capture_order();
    lemma_stable_first(out, own, le);
    lemma_stable_last(out, own, le);
    let i = choose|i: int|
        0 <= i < own.len() && out[0] == own[i] && forall|j: int|
            0 <= j < own.len() ==> le(own[i], #[trigger] own[j]) && (j < i ==> !le(own[j], own[i]));
    assert(is_oldest(own, i));
    let j = choose|i: int|
        0 <= i < own.len() && out[out.len() - 1] == own[i] && forall|j: int|
            0 <= j < own.len() ==> le(#[trigger] own[j], own[i]) && (j > i ==> !le(own[i], own[j]));
    assert(is_newest(own, j));
}

/// Capture time orders snapshots as a total preorder.
proof fn lemma_capture_order()
    ensures
        total_preorder(|a: Snapshot, b: Snapshot| by_capture_time(a, b)),
{
}

/// A character has at most one oldest and one newest capture.
pub(crate) proof fn lemma_ends_unique(own: Seq<Snapshot>, i: int, k: int)
    ensures
        is_oldest(own, i) && is_oldest(own, k) ==> i == k,
        is_newest(own, i) && is_newest(own, k) ==> i == k,
{
    if is_oldest(own, i) && is_oldest(own, k) && i != k {
        assert(own[i].captured_at <= own[k].captured_at);
        assert(own[k].captured_at <= own[i].captured_at);
    }
    if is_newest(own, i) && is_newest(own, k) && i != k {
        assert(own[i].captured_at <= own[k].captured_at);
        assert(own[k].captured_at <= own[i].captured_at);
    }
}

/// The change across a character's whole recorded history: from its oldest
/// capture to its newest, or nothing when there is no span to measure.
pub fn total_delta(history: &History, key: &str) -> (total: Option<Delta>)
    requires
        spans_defined(history@, key@),
    ensures
        ({
            let own = snapshots_of(history@, key@);
            match total {
                None => forall|i: int, j: int|
                    #![trigger is_oldest(own, i), is_newest(own, j)]
                    is_oldest(own, i) && is_newest(own, j) ==> own[i].captured_at
                        == own[j].captured_at,
                Some(d) => exists|i: int, j: int|
                    #![trigger is_oldest(own, i), is_newest(own, j)]
                    is_oldest(own, i) && is_newest(own, j) && own[i].captured_at
                        != own[j].captured_at && is_delta(d, own[i], own[j]),
            }
        }),
{
    let snapshots = history.for_character(key);
    let ghost own = snapshots_of(history@, key@);
    if snapshots.len() == 0 {
        proof {
            assert(snapshots@.map_values(|s: &Snapshot| *s).len() == 0);
            assert(own.len() == 0);
        }
        return None;
    }
    let first = snapshots[0];
    let last = snapshots[snapshots.len() - 1];
    proof {
        lemma_run_ends(snapshots@, own);
    }
    let ghost i = choose|i: int| is_oldest(own, i) && own[i] == *first;
    let ghost j = choose|j: int| is_newest(own, j) && own[j] == *last;
    proof {
        assert forall|a: int, b: int| is_oldest(own, a) && is_newest(own, b) implies a == i && b
            == j by {
            lemma_ends_unique(own, a, i);
            lemma_ends_unique(own, b, j);
        }
    }
    if first.captured_at == last.captured_at {
        return None;
    }
    let change = delta(first, last);
    proof {
        assert(is_oldest(own, i) && is_newest(own, j));
    }
    Some(change)
}

/// Nothing worth reporting happened between two captures.
pub open spec fn quiet_between(before: Snapshot, after: Snapshot) -> bool {
    &&& levels_change(before, after) == 0
    &&& (xp_gain_of(before, after) == XpGain::Exact(0) || xp_gain_of(before, after)
        == XpGain::Unknown)
    &&& copper_change_of(before, after).unwrap_or(0) == 0
    &&& forall|e: (Seq<char>, i32)| !#[trigger] skill_changed(before.skills@, after.skills@, e)
}

/// A window worth judging: the character's oldest capture, no later than
/// `since`, and its newest, taken at a different moment.
pub open spec fn stall_window(own: Seq<Snapshot>, since: i64, i: int, j: int) -> bool {
    &&& is_oldest(own, i)
    &&& is_newest(own, j)
    &&& own[i].captured_at <= since
    &&& own[i].captured_at != own[j].captured_at
}

/// Every window `stalled` judges can be compared.
pub open spec fn stalls_defined(s: Seq<Snapshot>, since: i64) -> bool {
    forall|key: Seq<char>, i: int, j: int|
        #[trigger] stall_window(snapshots_of(s, key), since, i, j) ==> delta_defined(
            snapshots_of(s, key)[i],
            snapshots_of(s, key)[j],
        )
}

/// The distinct character keys of `s`, in key order.
pub open spec fn character_keys(s: Seq<Snapshot>) -> Seq<Seq<char>> {
    choose|ks: Seq<Seq<char>>|
        ascending_keys(ks) && forall|k: Seq<char>| #[trigger]
            ks.contains(k) <==> exists|i: int| 0 <= i < s.len() && s[i].key@ == k
}

/// For each of `keys` in turn, the window of a character that was captured
/// across `since` and gained nothing in it.
pub open spec fn stalled_windows(s: Seq<Snapshot>, keys: Seq<Seq<char>>, since: i64) -> Seq<
    (Snapshot, Snapshot),
>
    decreases keys.len(),
{
    if keys.len() == 0 {
        Seq::empty()
    } else {
        let rest = stalled_windows(s, keys.drop_last(), since);
        let own = snapshots_of(s, keys.last());
        if exists|i: int, j: int|
            stall_window(own, since, i, j) && quiet_between(own[i], own[j]) {
            let (i, j) = choose|i: int, j: int|
                stall_window(own, since, i, j) && quiet_between(own[i], own[j]);
            rest.push((own[i], own[j]))
        } else {
            rest
        }
    }
}

/// Deltas in order of character name.
pub open spec fn by_name(a: Delta, b: Delta) -> bool {
    !key_lt(b.name@, a.name@)
}

/// `out` is `d` stably sorted by name.
pub open spec fn sorted_by_name(out: Seq<Delta>, d: Seq<Delta>) -> bool {
    stable_sorted(out, d, |a: Delta, b: Delta| by_name(a, b))
}

/// Name order is a total preorder on deltas.
proof fn lemma_name_order()
    ensures
        total_preorder(|a: Delta, b: Delta| by_name(a, b)),
{
    assert forall|a: Delta, b: Delta| #[trigger] by_name(a, b) || by_name(b, a) by {
        lemma_key_order(a.name@, b.name@);
    }
    assert forall|a: Delta| #[trigger] by_name(a, a) by {
        lemma_key_order(a.name@, a.name@);
    }
    assert forall|a: Delta, b: Delta, c: Delta|
        #[trigger] by_name(a, b) && #[trigger] by_name(b, c) implies by_name(a, c) by {
        lemma_key_order(a.name@, b.name@);
        lemma_key_order(b.name@, c.name@);
        lemma_key_order(a.name@, c.name@);
        if key_lt(c.name@, a.name@) {
            if key_lt(a.name@, b.name@) {
                lemma_key_lt_transitive(c.name@, a.name@, b.name@);
                if key_lt(b.name@, c.name@) {
                    lemma_key_lt_transitive(b.name@, c.name@, b.name@);
                }
            } else {
                assert(a.name@ == b.name@);
            }
        }
    }
}

/// Whether `a`'s name sorts strictly before `b`'s.
fn name_earlier(a: &Delta, b: &Delta) -> (earlier: bool)
    ensures
        earlier == key_lt(a.name@, b.name@),
{
    key_order(a.name.as_str(), b.name.as_str()) == KeyOrder::Less
}

/// Characters that have been captured across `since` and gained nothing:
/// for each character, its oldest capture (when that is no later than
/// `since`) against its newest. In order of name; characters of one name in
/// key order.
///
/// This is the observation a snapshot cannot make and history can: not "this
/// character is behind" but "you have stopped playing this character", which
/// is only visible over time.
pub fn stalled(history: &History, since: i64) -> (found: Vec<Delta>)
    requires
        stalls_defined(history@, since),
    ensures
        ({
            let windows = stalled_windows(history@, character_keys(history@), since);
            exists|d: Seq<Delta>|
                #[trigger] sorted_by_name(found@, d) && d.len() == windows.len() && forall|k: int|
                    0 <= k < windows.len() ==> is_delta(
                        #[trigger] d[k],
                        windows[k].0,
                        windows[k].1,
                    )
        }),
        forall|k: int|
            0 <= k < found@.len() ==> {
                &&& (#[trigger] found@[k]).copper.unwrap_or(0) == 0
                &&& found@[k].levels_gained == 0
                &&& found@[k].skills@.len() == 0
                &&& (found@[k].xp == XpGain::Exact(0) || found@[k].xp == XpGain::Unknown)
            },
{
    let ghost s = history@;
    let latest = history.latest_per_character();
    let keys = latest.keys();
    let ghost kv = keys@.map_values(|k: &String| k@);
    proof {
        lemma_latest_keys(s, latest@, keys@, kv);
    }
    let mut found: Vec<Delta> = Vec::new();
    let mut idx: usize = 0;
    while idx < keys.len()
        invariant
            0 <= idx <= keys@.len(),
            s == history@,
            kv == keys@.map_values(|k: &String| k@),
            stalls_defined(s, since),
            found@.len() == stalled_windows(s, kv.take(idx as int), since).len(),
            forall|k: int|
                0 <= k < found@.len() ==> is_delta(
                    #[trigger] found@[k],
                    stalled_windows(s, kv.take(idx as int), since)[k].0,
                    stalled_windows(s, kv.take(idx as int), since)[k].1,
                ),
        decreases keys@.len() - idx,
    {
        let key: &String = keys[idx];
        let snapshots = history.for_character(key.as_str());
        let ghost own = snapshots_of(s, key@);
        let ghost before_windows = stalled_windows(s, kv.take(idx as int), since);
        proof {
            assert(kv.take(idx + 1).drop_last() =~= kv.take(idx as int));
            assert(kv.take(idx + 1).last() == key@);
        }
        if snapshots.len() > 0 {
            let first = snapshots[0];
            let last = snapshots[snapshots.len() - 1];
            proof {
                lemma_run_ends(snapshots@, own);
            }
            let ghost i = choose|i: int| is_oldest(own, i) && own[i] == *first;
            let ghost j = choose|j: int| is_newest(own, j) && own[j] == *last;
            proof {
                assert forall|a: int, b: int| stall_window(own, since, a, b) implies a == i && b
                    == j by {
                    lemma_ends_unique(own, a, i);
                    lemma_ends_unique(own, b, j);
                }
            }
            if first.captured_at <= since && first.captured_at != last.captured_at {
                proof {
                    assert(stall_window(own, since, i, j));
                }
                let change = delta(first, last);
                proof {
                    lemma_idle_iff_quiet(change, own[i], own[j]);
                }
                if change.is_idle() {
                    found.push(change);
                    proof {
                        assert(found@.last() == change);
                        assert forall|k: int|
                            0 <= k < found@.len() implies is_delta(
                            #[trigger] found@[k],
                            stalled_windows(s, kv.take(idx + 1), since)[k].0,
                            stalled_windows(s, kv.take(idx + 1), since)[k].1,
                        ) by {
                            if k < found@.len() - 1 {
                                assert(stalled_windows(s, kv.take(idx + 1), since)[k]
                                    == before_windows[k]);
                            }
                        }
                    }
                } else {
                    proof {
                        assert(stalled_windows(s, kv.take(idx + 1), since) == before_windows);
                    }
                }
            } else {
                proof {
                    assert(stalled_windows(s, kv.take(idx + 1), since) == before_windows);
                }
            }
        } else {
            proof {
                assert(stalled_windows(s, kv.take(idx + 1), since) == before_windows);
            }
        }
        idx = idx + 1;
    }
    proof {
        assert(kv.take(keys@.len() as int) =~= kv);
        lemma_name_order();
    }
    let ghost unsorted = found@;
    let ghost le = |a: Delta, b: Delta| by_name(a, b);
    let sorted = sort_stable(found, Ghost(le), name_earlier);
    proof {
        assert(sorted_by_name(sorted@, unsorted));
        a_stall_gained_nothing(s, since, sorted@);
    }
    sorted
}

/// A change in money is never idleness: a delta that earned or spent copper
/// is not idle, and neither is one that gained a level or a profession rank.
pub proof fn money_moving_is_never_idle(d: Delta)
    ensures
        d.copper matches Some(c) && c != 0 ==> !idle(d),
        d.levels_gained != 0 ==> !idle(d),
        d.skills@.len() > 0 ==> !idle(d),
{
}

/// Every window `stalled` keeps is quiet between its ends.
proof fn lemma_windows_quiet(s: Seq<Snapshot>, keys: Seq<Seq<char>>, since: i64)
    ensures
        forall|k: int|
            0 <= k < stalled_windows(s, keys, since).len() ==> quiet_between(
                (#[trigger] stalled_windows(s, keys, since)[k]).0,
                stalled_windows(s, keys, since)[k].1,
            ),
    decreases keys.len(),
{
    if keys.len() > 0 {
        lemma_windows_quiet(s, keys.drop_last(), since);
        let rest = stalled_windows(s, keys.drop_last(), since);
        let own = snapshots_of(s, keys.last());
        let w = stalled_windows(s, keys, since);
        if exists|i: int, j: int| stall_window(own, since, i, j) && quiet_between(own[i], own[j]) {
            let (i, j) = choose|i: int, j: int|
                stall_window(own, since, i, j) && quiet_between(own[i], own[j]);
            assert(w == rest.push((own[i], own[j])));
            assert forall|k: int| 0 <= k < w.len() implies quiet_between(
                (#[trigger] w[k]).0,
                w[k].1,
            ) by {
                if k < rest.len() {
                    assert(w[k] == rest[k]);
                }
            }
        } else {
            assert(w == rest);
        }
    }
}

/// A stall is a character that gained nothing: every delta `stalled` lists
/// shows no level, no XP, no profession rank and no change in money between
/// the two ends of its window.
pub proof fn a_stall_gained_nothing(s: Seq<Snapshot>, since: i64, found: Seq<Delta>)
    requires
        ({
            let windows = stalled_windows(s, character_keys(s), since);
            exists|d: Seq<Delta>|
                #[trigger] sorted_by_name(found, d) && d.len() == windows.len() && forall|k: int|
                    0 <= k < windows.len() ==> is_delta(
                        #[trigger] d[k],
                        windows[k].0,
                        windows[k].1,
                    )
        }),
    ensures
        forall|k: int|
            0 <= k < found.len() ==> {
                &&& (#[trigger] found[k]).copper.unwrap_or(0) == 0
                &&& found[k].levels_gained == 0
                &&& found[k].skills@.len() == 0
                &&& (found[k].xp == XpGain::Exact(0) || found[k].xp == XpGain::Unknown)
            },
{
    let windows = stalled_windows(s, character_keys(s), since);
    let d = choose|d: Seq<Delta>|
        #[trigger] sorted_by_name(found, d) && d.len() == windows.len() && forall|k: int|
            0 <= k < windows.len() ==> is_delta(#[trigger] d[k], windows[k].0, windows[k].1);
    lemma_windows_quiet(s, character_keys(s), since);
    let le = |a: Delta, b: Delta| by_name(a, b);
    let p = choose|p: Seq<int>| crate::order::stable_arrangement(found, d, p, le);
    assert forall|k: int| 0 <= k < found.len() implies {
        &&& (#[trigger] found[k]).copper.unwrap_or(0) == 0
        &&& found[k].levels_gained == 0
        &&& found[k].skills@.len() == 0
        &&& (found[k].xp == XpGain::Exact(0) || found[k].xp == XpGain::Unknown)
    } by {
        let m = p[k];
        assert(found[k] == d[m]);
        assert(is_delta(d[m], windows[m].0, windows[m].1));
        assert(quiet_between(windows[m].0, windows[m].1));
        lemma_idle_iff_quiet(d[m], windows[m].0, windows[m].1);
    }
}

/// With a delta in hand, idleness is quietness between its ends.
pub(crate) proof fn lemma_idle_iff_quiet(d: Delta, before: Snapshot, after: Snapshot)
    requires
        is_delta(d, before, after),
    ensures
        idle(d) == quiet_between(before, after),
{
    if d.skills@.len() > 0 {
        assert(d.skills@.contains(d.skills@[0]));
        assert(skill_changed(before.skills@, after.skills@, d.skills@[0]));
    }
    if exists|e: (Seq<char>, i32)| skill_changed(before.skills@, after.skills@, e) {
        let e = choose|e: (Seq<char>, i32)| skill_changed(before.skills@, after.skills@, e);
        assert(d.skills@.contains(e));
    }
}

/// The keys of the latest-per-character map are the distinct character keys,
/// in key order.
proof fn lemma_latest_keys(
    s: Seq<Snapshot>,
    latest: Seq<(Seq<char>, &Snapshot)>,
    keys: Seq<&String>,
    kv: Seq<Seq<char>>,
)
    requires
        sorted_by_key(latest),
        forall|e: (Seq<char>, &Snapshot)| #[trigger]
            latest.contains(e) <==> exists|i: int|
                is_latest(s, i) && e.0 == s[i].key@ && *e.1 == #[trigger] s[i],
        keys.len() == latest.len(),
        forall|i: int| 0 <= i < keys.len() ==> (#[trigger] keys[i])@ == latest[i].0,
        kv == keys.map_values(|k: &String| k@),
    ensures
        kv == character_keys(s),
{
    assert forall|i: int, j: int| 0 <= i < j < kv.len() implies key_lt(
        #[trigger] kv[i],
        #[trigger] kv[j],
    ) by {
        assert(kv[i] == latest[i].0 && kv[j] == latest[j].0);
    }
    assert forall|k: Seq<char>| #[trigger]
        kv.contains(k) <==> exists|i: int| 0 <= i < s.len() && s[i].key@ == k by {
        if kv.contains(k) {
            let x = choose|x: int| 0 <= x < kv.len() && kv[x] == k;
            assert(latest.contains(latest[x]));
            let i = choose|i: int|
                is_latest(s, i) && latest[x].0 == s[i].key@ && *latest[x].1 == #[trigger] s[i];
            assert(s[i].key@ == k);
        }
        if exists|i: int| 0 <= i < s.len() && s[i].key@ == k {
            let i = choose|i: int| 0 <= i < s.len() && s[i].key@ == k;
            lemma_some_latest(s, i);
            let m = choose|m: int| is_latest(s, m) && s[m].key@ == s[i].key@;
            let e = (k, &s[m]);
            assert(latest.contains(e));
            let x = choose|x: int| 0 <= x < latest.len() && latest[x] == e;
            assert(kv[x] == k);
        }
    }
    assert(ascending_keys(kv));
    let ks = character_keys(s);
    assert(ascending_keys(ks) && forall|k: Seq<char>| #[trigger]
        ks.contains(k) <==> exists|i: int| 0 <= i < s.len() && s[i].key@ == k);
    lemma_ascending_keys_unique(kv, ks);
}

/// Whether the change between two snapshots can be worked out: the XP across
/// a level and the change in copper both fit their types.
pub fn delta_computable(before: &Snapshot, after: &Snapshot) -> (ok: bool)
    ensures
        ok == delta_defined(*before, *after),
{
    let levels_up = match (before.level, after.level) {
        (Some(from), Some(to)) => to > from,
        _ => false,
    };
    let xp_ok = if levels_up {
        match (before.xp, after.xp, before.max_xp) {
            (Some(from), Some(to), Some(max)) => {
                let rest: u128 = if max >= from {
                    (max - from) as u128
                } else {
                    0
                };
                rest + to as u128 <= u64::MAX as u128
            },
            _ => true,
        }
    } else {
        true
    };
    let copper_ok = match (before.money_copper, after.money_copper) {
        (Some(from), Some(to)) => {
            let change = (to as i64) as i128 - (from as i64) as i128;
            i64::MIN as i128 <= change && change <= i64::MAX as i128
        },
        _ => true,
    };
    xp_ok && copper_ok
}

/// Whether every span of a character's history can be compared.
pub fn spans_computable(history: &History, key: &str) -> (ok: bool)
    ensures
        ok == spans_defined(history@, key@),
{
    let own = history.for_character(key);
    let ghost s = snapshots_of(history@, key@);
    if own.len() == 0 {
        proof {
            let out = own@.map_values(|x: &Snapshot| *x);
            let le = |a: Snapshot, b: Snapshot| by_capture_time(a, b);
            let p = choose|p: Seq<int>| crate::order::stable_arrangement(out, s, p, le);
            assert(s.len() == out.len());
        }
        return true;
    }
    let first = own[0];
    let last = own[own.len() - 1];
    proof {
        lemma_run_ends(own@, s);
    }
    let ok = first.captured_at == last.captured_at || delta_computable(first, last);
    proof {
        let i = choose|i: int| is_oldest(s, i) && s[i] == *own@[0];
        let j = choose|j: int| is_newest(s, j) && s[j] == *own@[own@.len() - 1];
        assert forall|a: int, b: int|
            #![trigger is_oldest(s, a), is_newest(s, b)]
            is_oldest(s, a) && is_newest(s, b) implies a == i && b == j by {
            lemma_ends_unique(s, a, i);
            lemma_ends_unique(s, b, j);
        }
        if !ok {
            assert(is_oldest(s, i) && is_newest(s, j));
        }
    }
    ok
}

/// The pieces of a text between its line breaks: one more than it has
/// breaks, the last one empty when the text ends with a break.
pub open spec fn line_pieces(text: Seq<char>) -> Seq<Seq<char>>
    decreases text.len(),
{
    if text.len() == 0 {
        seq![Seq::empty()]
    } else {
        let rest = line_pieces(text.drop_last());
        if text.last() == '\n' {
            rest.push(Seq::empty())
        } else {
            rest.update(rest.len() - 1, rest.last().push(text.last()))
        }
    }
}

/// The store's lines worth reading: each non-blank line, trimmed, with its
/// line number counted from one.
pub open spec fn store_entries(pieces: Seq<Seq<char>>) -> Seq<(nat, Seq<char>)>
    decreases pieces.len(),
{
    if pieces.len() == 0 {
        Seq::empty()
    } else {
        let before = store_entries(pieces.drop_last());
        let line = trim(pieces.last());
        if line.len() == 0 {
            before
        } else {
            before.push((pieces.len(), line))
        }
    }
}

/// Split a JSON-lines store into the lines that hold a snapshot, each with
/// its line number. A blank line holds nothing and is passed over; a carriage
/// return before a line break is white space and is trimmed with the rest.
pub fn store_lines(text: &str) -> (lines: Vec<(usize, String)>)
    requires
        text@.len() < usize::MAX,
    ensures
        lines@.map_values(|e: (usize, String)| (e.0 as nat, e.1@)) == store_entries(
            line_pieces(text@),
        ),
{
    let n = text.unicode_len();
    let mut lines: Vec<(usize, String)> = Vec::new();
    let mut current = String::new();
    let mut number: usize = 1;
    let ghost mut done: Seq<Seq<char>> = Seq::empty();
    let mut i: usize = 0;
    while i < n
        invariant
            n == text@.len(),
            n < usize::MAX,
            i <= n,
            number == done.len() + 1,
            number <= i + 1,
            line_pieces(text@.subrange(0, i as int)) == done.push(current@),
            lines@.map_values(|e: (usize, String)| (e.0 as nat, e.1@)) == store_entries(done),
        decreases n - i,
    {
        let c = text.get_char(i);
        proof {
            assert(text@.subrange(0, i + 1).drop_last() =~= text@.subrange(0, i as int));
            assert(text@.subrange(0, i + 1).last() == c);
        }
        if c == '\n' {
            let line = trim_str(current.as_str());
            proof {
                assert(store_entries(done.push(current@)).len() >= 0);
                assert(done.push(current@).drop_last() =~= done);
            }
            if line.unicode_len() > 0 {
                let ghost old_lines = lines@;
                lines.push((number, line));
                proof {
                    assert(lines@.map_values(|e: (usize, String)| (e.0 as nat, e.1@))
                        =~= old_lines.map_values(|e: (usize, String)| (e.0 as nat, e.1@)).push(
                        (number as nat, trim(current@)),
                    ));
                }
            }
            proof {
                done = done.push(current@);
            }
            current = String::new();
            number = number + 1;
            proof {
                assert(current@ =~= Seq::<char>::empty());
            }
        } else {
            let ghost before = current@;
            push_char(&mut current, c);
            proof {
                assert(done.push(before).update(done.len() as int, before.push(c)) =~= done.push(
                    current@,
                ));
            }
        }
        i = i + 1;
    }
    proof {
        assert(text@.subrange(0, n as int) =~= text@);
        assert(done.push(current@).drop_last() =~= done);
    }
    let line = trim_str(current.as_str());
    if line.unicode_len() > 0 {
        let ghost old_lines = lines@;
        lines.push((number, line));
        proof {
            assert(lines@.map_values(|e: (usize, String)| (e.0 as nat, e.1@)) =~= old_lines.map_values(
                |e: (usize, String)| (e.0 as nat, e.1@),
            ).push((number as nat, trim(current@))));
        }
    }
    lines
}

} // verus!
