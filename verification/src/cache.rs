//! The state of a cache whose entries are dropped all at once.
//!
//! Every entry is tagged with the generation it was computed under, and only
//! entries of the current generation are live. Dropping all of them is then a
//! single step of the generation counter, and a computation that was under way
//! when that happened publishes its result under the old generation, where it is
//! ignored.

use vstd::prelude::*;

verus! {

/// What a cache holds.
#[verifier::ext_equal]
pub struct CacheState<T> {
    pub generation: u64,
    pub entries: Map<Seq<char>, (u64, T)>,
}

/// What a cache has of a folder: a live value, or else the generation under which
/// a computation that starts now is to be published.
#[derive(Debug, Clone)]
pub enum Lookup<T> {
    Hit(T),
    Miss(u64),
}

/// The live value of `folder`.
pub open spec fn live<T>(s: CacheState<T>, folder: Seq<char>) -> Option<T> {
    if s.entries.contains_key(folder) && s.entries[folder].0 == s.generation {
        Some(s.entries[folder].1)
    } else {
        None
    }
}

/// No entry is tagged with a generation that has not begun.
pub open spec fn is_past<T>(s: CacheState<T>) -> bool {
    forall|f: Seq<char>| #[trigger] s.entries.contains_key(f) ==> s.entries[f].0 <= s.generation
}

/// The folders with a live value.
pub open spec fn live_folders<T>(s: CacheState<T>) -> Set<Seq<char>> {
    Set::new(|f: Seq<char>| live(s, f) is Some)
}

/// The cache is sound: it holds finitely many entries, at most `bound` of them,
/// and none of a generation that has not begun.
pub open spec fn is_sound<T>(s: CacheState<T>, bound: nat) -> bool {
    &&& is_past(s)
    &&& s.entries.dom().finite()
    &&& s.entries.len() <= bound
}

/// The cache after every live value was dropped. After the last generation the
/// count starts over, with nothing left that could come back to life.
pub open spec fn invalidated<T>(s: CacheState<T>) -> CacheState<T> {
    if s.generation == u64::MAX {
        CacheState { generation: 0, entries: Map::empty() }
    } else {
        CacheState { generation: (s.generation + 1) as u64, entries: s.entries }
    }
}

/// The cache after `value` was stored for `folder` under `generation`.
pub open spec fn stored<T>(
    s: CacheState<T>,
    generation: u64,
    folder: Seq<char>,
    value: T,
) -> CacheState<T> {
    CacheState { generation: s.generation, entries: s.entries.insert(folder, (generation, value)) }
}

/// Dropping everything leaves no live value, and a sound cache sound.
pub proof fn law_invalidation_drops_every_value<T>(s: CacheState<T>, bound: nat, folder: Seq<char>)
    requires
        is_sound(s, bound),
    ensures
        live(invalidated(s), folder) is None,
        is_sound(invalidated(s), bound),
{
}

/// A value computed before the cache was invalidated and stored afterwards is
/// never live: it does not shadow, and does not revive, anything.
pub proof fn law_a_late_result_is_ignored<T>(
    s: CacheState<T>,
    folder: Seq<char>,
    value: T,
    other: Seq<char>,
)
    requires
        is_past(s),
    ensures
        live(stored(invalidated(s), s.generation, folder, value), other) is None,
{
}

/// No more folders have a live value than there are entries.
pub proof fn lemma_live_folders<T>(s: CacheState<T>)
    requires
        s.entries.dom().finite(),
    ensures
        live_folders(s).finite(),
        live_folders(s).len() <= s.entries.len(),
{
    assert(live_folders(s).subset_of(s.entries.dom()));
    vstd::set_lib::lemma_len_subset(live_folders(s), s.entries.dom());
}

/// A value stored under the current generation is read back, and no other
/// folder is affected.
pub proof fn law_a_stored_value_is_read_back<T>(
    s: CacheState<T>,
    folder: Seq<char>,
    value: T,
    other: Seq<char>,
)
    ensures
        live(stored(s, s.generation, folder, value), other) == if other == folder {
            Some(value)
        } else {
            live(s, other)
        },
        is_past(s) ==> is_past(stored(s, s.generation, folder, value)),
{
}

/// What is live: the value last stored for a folder, as long as that was under the
/// present generation.
pub proof fn law_what_is_live<T>(
    s: CacheState<T>,
    generation: u64,
    folder: Seq<char>,
    value: T,
    other: Seq<char>,
)
    ensures
        live(stored(s, generation, folder, value), folder) == if generation == s.generation {
            Some(value)
        } else {
            None
        },
        other != folder ==> live(stored(s, generation, folder, value), other) == live(s, other),
        stored(s, generation, folder, value).generation == s.generation,
        live(CacheState::<T> { generation, entries: Map::empty() }, folder) is None,
        s.generation < u64::MAX ==> invalidated(s).generation == s.generation + 1,
{
}

/// What looking a folder up comes to.
pub open spec fn looked_up<T>(s: CacheState<T>, folder: Seq<char>) -> Lookup<T> {
    match live(s, folder) {
        Some(value) => Lookup::Hit(value),
        None => Lookup::Miss(s.generation),
    }
}

/// A look-up hits exactly where there is a live value, and gives it; a miss gives the
/// generation under which a value is live when it is stored before the next change,
/// and dead when it is stored after.
pub proof fn law_a_miss_gives_the_ticket<T>(s: CacheState<T>, folder: Seq<char>, value: T)
    requires
        is_past(s),
    ensures
        looked_up(s, folder) matches Lookup::Hit(v) ==> live(s, folder) == Some(v),
        live(s, folder) is Some ==> looked_up(s, folder) is Hit,
        looked_up(s, folder) matches Lookup::Miss(ticket) ==> {
            &&& live(s, folder) is None
            &&& live(stored(s, ticket, folder, value), folder) == Some(value)
            &&& live(stored(invalidated(s), ticket, folder, value), folder) is None
        },
        looked_up(stored(s, s.generation, folder, value), folder) == Lookup::<T>::Hit(value),
        looked_up(invalidated(s), folder) is Miss,
{
}

} // verus!
