//! The severity scale: named reference points on an open integer scale,
//! two sentinels, and a process-wide additive registry of human-readable
//! names for levels.
use vstd::prelude::*;

verus! {

use crate::LogLevel;

/// The minimum log level.
pub const MIN: LogLevel = i32::MIN;
/// Log everything: the lowest representable severity.
pub const ALL: LogLevel = i32::MIN;
/// Messages used for debugging only.
pub const DEBUG: LogLevel = 0;
/// Information the user should see.
pub const INFO: LogLevel = 10;
/// Messages reporting success.
pub const SUCCESS: LogLevel = 20;
/// A warning: nothing has gone wrong yet.
pub const WARN: LogLevel = 30;
/// An error occurred.
pub const ERROR: LogLevel = 40;
/// Something went critically wrong.
pub const CRITICAL: LogLevel = 50;
/// Something went fatally wrong.
pub const FATAL: LogLevel = 60;
/// Log nothing: the highest representable severity.
pub const NONE: LogLevel = i32::MAX;
/// The maximum log level.
pub const MAX: LogLevel = i32::MAX;

/// The map described by an association list, later entries overriding
/// earlier ones.
pub open spec fn entries_map(s: Seq<(int, Seq<char>)>) -> Map<int, Seq<char>>
    decreases s.len(),
{
    if s.len() == 0 {
        Map::empty()
    } else {
        entries_map(s.drop_last()).insert(s.last().0, s.last().1)
    }
}

/// A registry of human-readable names for severity levels, keyed by the
/// integer level. Additive: names can be added or replaced, never removed.
pub struct LevelNames {
    entries: Vec<(i32, String)>,
}

impl View for LevelNames {
    type V = Map<int, Seq<char>>;

    closed spec fn view(&self) -> Map<int, Seq<char>> {
        entries_map(Seq::new(self.entries@.len(), |k: int| (self.entries@[k].0 as int, self.entries@[k].1@)))
    }
}

impl LevelNames {
    /// The keys stored are pairwise distinct.
    pub closed spec fn wf(&self) -> bool {
        forall|k1: int, k2: int|
            0 <= k1 < k2 < self.entries@.len() ==> (#[trigger] self.entries@[k1]).0 != (#[trigger] self.entries@[k2]).0
    }

    /// An empty name registry.
    pub fn new() -> (r: LevelNames)
        ensures
            r@ == Map::<int, Seq<char>>::empty(),
            r.wf(),
    {
        LevelNames { entries: Vec::new() }
    }
}

/// No entry carries the key `k`, so the map has no key `k`.
proof fn lemma_entries_map_absent(s: Seq<(int, Seq<char>)>, k: int)
    requires
        forall|m: int| 0 <= m < s.len() ==> (#[trigger] s[m]).0 != k,
    ensures
        !entries_map(s).contains_key(k),
    decreases s.len(),
{
    if s.len() > 0 {
        lemma_entries_map_absent(s.drop_last(), k);
    }
}

/// Under distinct keys, the entry at index `m` gives the map's value at
/// its key.
proof fn lemma_entries_map_at(s: Seq<(int, Seq<char>)>, m: int)
    requires
        forall|k1: int, k2: int| 0 <= k1 < k2 < s.len() ==> (#[trigger] s[k1]).0 != (#[trigger] s[k2]).0,
        0 <= m < s.len(),
    ensures
        entries_map(s).contains_key(s[m].0),
        entries_map(s)[s[m].0] == s[m].1,
    decreases s.len(),
{
    if m < s.len() - 1 {
        lemma_entries_map_at(s.drop_last(), m);
    }
}

/// Under distinct keys, overwriting the value at index `m` is inserting
/// at its key.
proof fn lemma_entries_map_update(s: Seq<(int, Seq<char>)>, m: int, v: Seq<char>)
    requires
        forall|k1: int, k2: int| 0 <= k1 < k2 < s.len() ==> (#[trigger] s[k1]).0 != (#[trigger] s[k2]).0,
        0 <= m < s.len(),
    ensures
        entries_map(s.update(m, (s[m].0, v))) == entries_map(s).insert(s[m].0, v),
    decreases s.len(),
{
    let s2 = s.update(m, (s[m].0, v));
    if m == s.len() - 1 {
        assert(s2.drop_last() =~= s.drop_last());
        assert(entries_map(s2) =~= entries_map(s).insert(s[m].0, v));
    } else {
        lemma_entries_map_update(s.drop_last(), m, v);
        assert(s2.drop_last() =~= s.drop_last().update(m, (s[m].0, v)));
        assert(s2.last() == s.last());
        assert(entries_map(s2) =~= entries_map(s).insert(s[m].0, v));
    }
}

/// Register a human-readable `name` for the severity `level`, replacing
/// any earlier name for the same level.
pub fn add_level(names: &mut LevelNames, level: LogLevel, name: String)
    requires
        old(names).wf(),
    ensures
        final(names).wf(),
        final(names)@ == old(names)@.insert(level as int, name@),
{
    let ghost s0 = Seq::new(names.entries@.len(), |k: int| (names.entries@[k].0 as int, names.entries@[k].1@));
    let n = names.entries.len();
    let mut m: usize = 0;
    while m < n
        invariant
            n == names.entries@.len(),
            m <= n,
            names.wf(),
            *names == *old(names),
            s0 == Seq::new(names.entries@.len(), |k: int| (names.entries@[k].0 as int, names.entries@[k].1@)),
            forall|j: int| 0 <= j < m ==> (#[trigger] names.entries@[j]).0 != level,
        decreases n - m,
    {
        if names.entries[m].0 == level {
            proof {
                lemma_entries_map_update(s0, m as int, name@);
            }
            names.entries[m].1 = name;
            proof {
                let s1 = Seq::new(names.entries@.len(), |k: int| (names.entries@[k].0 as int, names.entries@[k].1@));
                assert(s1 =~= s0.update(m as int, (s0[m as int].0, name@)));
            }
            return;
        }
        m += 1;
    }
    proof {
        lemma_entries_map_absent(s0, level as int);
    }
    names.entries.push((level, name));
    proof {
        let s1 = Seq::new(names.entries@.len(), |k: int| (names.entries@[k].0 as int, names.entries@[k].1@));
        assert(s1 =~= s0.push((level as int, name@)));
        assert(s1.drop_last() =~= s0);
    }
}

/// Look up the human-readable name registered for the severity `level`,
/// if any.
pub fn get_level(names: &LevelNames, level: LogLevel) -> (r: Option<String>)
    requires
        names.wf(),
    ensures
        match r {
            Some(s) => names@.contains_key(level as int) && s@ == names@[level as int],
            None => !names@.contains_key(level as int),
        },
{
    let ghost s0 = Seq::new(names.entries@.len(), |k: int| (names.entries@[k].0 as int, names.entries@[k].1@));
    let n = names.entries.len();
    let mut m: usize = 0;
    while m < n
        invariant
            n == names.entries@.len(),
            m <= n,
            names.wf(),
            s0 == Seq::new(names.entries@.len(), |k: int| (names.entries@[k].0 as int, names.entries@[k].1@)),
            forall|j: int| 0 <= j < m ==> (#[trigger] names.entries@[j]).0 != level,
        decreases n - m,
    {
        if names.entries[m].0 == level {
            proof {
                lemma_entries_map_at(s0, m as int);
            }
            return Some(names.entries[m].1.clone());
        }
        m += 1;
    }
    proof {
        lemma_entries_map_absent(s0, level as int);
    }
    None
}

} // verus!
