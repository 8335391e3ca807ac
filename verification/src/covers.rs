//! Cached, computed folder covers.
//!
//! Finding a cover for a folder without an explicit one takes a walk of up to
//! three directory levels. The answer changes only when the file system does, so
//! it is kept here and dropped as a whole on every change.
//!
//! Only the computed cover is cached. An explicit choice is stored elsewhere and
//! applied on top by the caller.

use crate::cache;
use crate::cache::{CacheState, Lookup};
use crate::text;
use crate::util;
use vstd::hash_map::StringHashMap;
use vstd::prelude::*;

verus! {

/// Upper bound on cached folders. On overflow the stale entries are pruned
/// first, and only if that is not enough is the cache dropped wholesale.
pub const MAX_ENTRIES: usize = 16384;

/// A computed cover: a thumbnail path relative to its folder, or none.
pub type Cover = Option<Seq<char>>;

/// The cache without the entries of earlier generations.
pub open spec fn pruned(s: CacheState<Cover>) -> CacheState<Cover> {
    CacheState {
        generation: s.generation,
        entries: s.entries.restrict(
            Set::new(|f: Seq<char>| s.entries.contains_key(f) && s.entries[f].0 == s.generation),
        ),
    }
}

/// The cache with room for one more entry.
pub open spec fn with_room(s: CacheState<Cover>) -> CacheState<Cover> {
    if s.entries.len() < MAX_ENTRIES {
        s
    } else if pruned(s).entries.len() < MAX_ENTRIES {
        pruned(s)
    } else {
        CacheState { generation: s.generation, entries: Map::empty() }
    }
}

/// The cache after the cover that a search found, begun under generation `ticket`,
/// was published. A ticket the cache has not given out in this round of its
/// generations is void.
pub open spec fn arrived(
    s: CacheState<Cover>,
    ticket: u64,
    folder: Seq<char>,
    value: Cover,
) -> CacheState<Cover> {
    if ticket <= s.generation {
        cache::stored(with_room(s), ticket, folder, value)
    } else {
        s
    }
}

/// Computed covers for folders, invalidated as a whole.
pub struct CoverCache {
    generation: u64,
    entries: StringHashMap<(u64, Option<String>)>,
    folders: Vec<String>,
}

spec fn entry_covers(entries: Map<Seq<char>, (u64, Option<String>)>) -> Map<
    Seq<char>,
    (u64, Cover),
> {
    Map::new(
        |f: Seq<char>| entries.contains_key(f),
        |f: Seq<char>| (entries[f].0, util::opt_view(entries[f].1)),
    )
}

impl View for CoverCache {
    type V = CacheState<Cover>;

    closed spec fn view(&self) -> CacheState<Cover> {
        CacheState { generation: self.generation, entries: entry_covers(self.entries@) }
    }
}

impl CoverCache {
    /// The folders listed are exactly those with an entry, each listed once.
    pub closed spec fn is_listed(&self) -> bool {
        let listed = text::string_views(self.folders@);
        &&& listed.no_duplicates()
        &&& forall|f: Seq<char>| #[trigger]
            self.entries@.contains_key(f) <==> listed.contains(f)
    }

    /// The cache knows its folders, holds no more than [`MAX_ENTRIES`] entries,
    /// and none of a generation that has not begun.
    pub open spec fn wf(&self) -> bool {
        &&& self.is_listed()
        &&& cache::is_sound(self@, MAX_ENTRIES as nat)
    }

    /// An empty cache.
    pub fn new() -> (r: Self)
        ensures
            r.wf(),
            r@ == (CacheState { generation: 0u64, entries: Map::<Seq<char>, (u64, Cover)>::empty() }),
    {
        let r = CoverCache { generation: 0, entries: StringHashMap::new(), folders: Vec::new() };
        proof {
            assert(r@.entries =~= Map::<Seq<char>, (u64, Cover)>::empty());
        }
        r
    }

    /// The current generation: what a search that starts now stores under.
    pub fn generation(&self) -> (r: u64)
        ensures
            r == self@.generation,
    {
        self.generation
    }

    /// Drops every cached cover.
    pub fn invalidate(&mut self)
        requires
            old(self).wf(),
        ensures
            final(self).wf(),
            final(self)@ == cache::invalidated(old(self)@),
    {
        if self.generation == u64::MAX {
            self.generation = 0;
            self.entries.clear();
            self.folders.clear();
            proof {
                assert(self@.entries =~= Map::<Seq<char>, (u64, Cover)>::empty());
            }
        } else {
            self.generation = self.generation + 1;
        }
    }

    /// The live value for `folder`. The outer layer says whether the folder was
    /// resolved under the current generation, the inner one is the answer, which
    /// may be that there is no cover.
    pub fn get(&self, folder: &str) -> (r: Option<Option<String>>)
        ensures
            match r {
                Some(cover) => cache::live(self@, folder@) == Some(util::opt_view(cover)),
                None => cache::live(self@, folder@) is None,
            },
    {
        match self.entries.get(folder) {
            Some(entry) => {
                if entry.0 == self.generation {
                    Some(copy_cover(&entry.1))
                } else {
                    None
                }
            },
            None => None,
        }
    }

    /// Caches the cover of `folder`, found by a search that just ran.
    pub fn insert(&mut self, folder: String, value: Option<String>)
        requires
            old(self).wf(),
        ensures
            final(self).wf(),
            final(self)@ == cache::stored(
                with_room(old(self)@),
                old(self)@.generation,
                folder@,
                util::opt_view(value),
            ),
    {
        let generation = self.generation;
        self.insert_under(generation, folder, value);
    }

    /// Caches the cover of `folder`, found by a search that began under
    /// `generation`.
    pub fn insert_under(&mut self, generation: u64, folder: String, value: Option<String>)
        requires
            old(self).wf(),
            generation <= old(self)@.generation,
        ensures
            final(self).wf(),
            final(self)@ == cache::stored(
                with_room(old(self)@),
                generation,
                folder@,
                util::opt_view(value),
            ),
    {
        proof {
            lemma_same_size(self.entries@);
            law_the_cache_is_bounded(self@, generation, folder@, util::opt_view(value));
        }
        if self.entries.len() >= MAX_ENTRIES {
            self.prune();
            proof {
                lemma_same_size(self.entries@);
            }
            if self.entries.len() >= MAX_ENTRIES {
                self.entries.clear();
                self.folders.clear();
                proof {
                    assert(self@.entries =~= Map::<Seq<char>, (u64, Cover)>::empty());
                }
            }
        }
        let ghost before = *self;
        let ghost listed = text::string_views(self.folders@);
        let ghost key = folder@;
        if !self.entries.contains_key(&folder) {
            self.folders.push(folder.clone());
            proof {
                assert(text::string_views(self.folders@) =~= listed.push(key));
                lemma_push(listed, key);
            }
        }
        self.entries.insert(folder, (generation, value));
        proof {
            assert(self@.entries =~= before@.entries.insert(
                key,
                (generation, util::opt_view(value)),
            ));
        }
    }

    /// Removes the entries of earlier generations.
    fn prune(&mut self)
        requires
            old(self).is_listed(),
        ensures
            final(self).is_listed(),
            final(self)@ == pruned(old(self)@),
    {
        let ghost before = *self;
        let ghost listed = text::string_views(self.folders@);
        let ghost fresh = |f: Seq<char>| before.entries@[f].0 == before.generation;
        let mut kept: Vec<String> = Vec::new();
        let mut i: usize = 0;
        let n = self.folders.len();
        proof {
            assert(listed.take(0) =~= Seq::<Seq<char>>::empty());
            assert(text::string_views(kept@) =~= Seq::<Seq<char>>::empty());
        }
        while i < n
            invariant
                i <= n == self.folders@.len(),
                self.folders@ == before.folders@,
                listed == text::string_views(before.folders@),
                fresh == (|f: Seq<char>| before.entries@[f].0 == before.generation),
                self.generation == before.generation,
                before.is_listed(),
                forall|f: Seq<char>| #[trigger]
                    self.entries@.contains_key(f) <==> before.entries@.contains_key(f) && (fresh(f)
                        || !listed.take(i as int).contains(f)),
                forall|f: Seq<char>| #[trigger]
                    self.entries@.contains_key(f) ==> self.entries@[f] == before.entries@[f],
                text::string_views(kept@).no_duplicates(),
                forall|f: Seq<char>| #[trigger]
                    text::string_views(kept@).contains(f) <==> listed.take(i as int).contains(f)
                        && fresh(f),
            decreases n - i,
        {
            let folder = self.folders[i].clone();
            let is_fresh = match self.entries.get(&folder) {
                Some(entry) => entry.0 == self.generation,
                None => false,
            };
            let ghost was = text::string_views(kept@);
            proof {
                let seen = listed.take(i as int);
                assert(folder@ == listed[i as int]);
                assert(listed.contains(folder@));
                assert(!seen.contains(folder@)) by {
                    if seen.contains(folder@) {
                        let j = choose|j: int| 0 <= j < seen.len() && seen[j] == folder@;
                        assert(listed[j] == listed[i as int]);
                    }
                }
                assert(before.entries@.contains_key(folder@));
                assert(self.entries@.contains_key(folder@));
                assert(is_fresh == fresh(folder@));
                assert(listed.take(i + 1) =~= seen.push(folder@));
                lemma_push(seen, folder@);
                lemma_push(was, folder@);
            }
            if is_fresh {
                kept.push(folder);
                proof {
                    assert(text::string_views(kept@) =~= was.push(listed[i as int]));
                }
            } else {
                self.entries.remove(&folder);
            }
            i = i + 1;
        }
        self.folders = kept;
        proof {
            assert(listed.take(n as int) =~= listed);
            assert(self@.entries =~= pruned(before@).entries);
        }
    }

    /// The live cover of `folder`, or the ticket for a search that finds it. The
    /// ticket is taken before the search starts, so that a change during the
    /// search makes its result stale.
    pub fn begin(&self, folder: &str) -> (r: Lookup<Option<String>>)
        ensures
            match cache::live(self@, folder@) {
                Some(c) => r is Hit && util::opt_view(r->Hit_0) == c,
                None => r == Lookup::<Option<String>>::Miss(self@.generation),
            },
            match cache::looked_up(self@, folder@) {
                Lookup::Hit(c) => r is Hit && util::opt_view(r->Hit_0) == c,
                Lookup::Miss(ticket) => r == Lookup::<Option<String>>::Miss(ticket),
            },
    {
        match self.get(folder) {
            Some(cover) => Lookup::Hit(cover),
            None => Lookup::Miss(self.generation),
        }
    }

    /// Caches the cover of `folder` that was found by the search for which `ticket`
    /// was given out.
    pub fn publish(&mut self, ticket: u64, folder: &str, cover: &Option<String>)
        requires
            old(self).wf(),
        ensures
            final(self).wf(),
            final(self)@ == arrived(old(self)@, ticket, folder@, util::opt_view(*cover)),
    {
        if ticket <= self.generation {
            let copy = copy_cover(cover);
            self.insert_under(ticket, folder.to_owned(), copy);
        }
    }

    /// The cached cover of `folder`, or else the one `resolve` finds, which is
    /// then cached. A live cover is not searched for again.
    pub fn get_or_compute<F: FnOnce() -> Option<String>>(
        &mut self,
        folder: &str,
        resolve: F,
    ) -> (r: Option<String>)
        requires
            old(self).wf(),
            cache::live(old(self)@, folder@) is None ==> call_requires(resolve, ()),
        ensures
            final(self).wf(),
            cache::live(old(self)@, folder@) matches Some(c) ==> {
                &&& util::opt_view(r) == c
                &&& final(self)@ == old(self)@
            },
            cache::live(old(self)@, folder@) is None ==> exists|v: Option<String>|
                {
                    &&& #[trigger] call_ensures(resolve, (), v)
                    &&& util::opt_view(r) == util::opt_view(v)
                    &&& final(self)@ == cache::stored(
                        with_room(old(self)@),
                        old(self)@.generation,
                        folder@,
                        util::opt_view(v),
                    )
                },
    {
        match self.begin(folder) {
            Lookup::Hit(cached) => cached,
            Lookup::Miss(ticket) => {
                let value = resolve();
                self.publish(ticket, folder, &value);
                value
            },
        }
    }
}

fn copy_cover(cover: &Option<String>) -> (r: Option<String>)
    ensures
        util::opt_view(r) == util::opt_view(*cover),
{
    match cover {
        Some(path) => Some(path.clone()),
        None => None,
    }
}

proof fn lemma_push(listed: Seq<Seq<char>>, folder: Seq<char>)
    ensures
        forall|f: Seq<char>| #[trigger]
            listed.push(folder).contains(f) <==> listed.contains(f) || f == folder,
        listed.no_duplicates() && !listed.contains(folder) ==> listed.push(folder).no_duplicates(),
{
    broadcast use vstd::seq_lib::group_seq_properties;

    assert forall|f: Seq<char>| #[trigger] listed.push(folder).contains(f) implies listed.contains(f)
        || f == folder by {
        let i = choose|i: int| 0 <= i < listed.push(folder).len() && listed.push(folder)[i] == f;
        if i < listed.len() {
            assert(listed[i] == f);
        }
    }
    assert(listed.push(folder)[listed.len() as int] == folder);
}

proof fn lemma_same_size(entries: Map<Seq<char>, (u64, Option<String>)>)
    ensures
        entry_covers(entries).len() == entries.len(),
{
    assert(entry_covers(entries).dom() =~= entries.dom());
}

/// Making room drops live values only where even the live ones fill the cache.
pub proof fn law_pruning_keeps_live_covers(s: CacheState<Cover>, folder: Seq<char>)
    requires
        s.entries.len() < MAX_ENTRIES || pruned(s).entries.len() < MAX_ENTRIES,
    ensures
        cache::live(with_room(s), folder) == cache::live(s, folder),
{
}

/// The cache stays within its bound, and stays sound.
pub proof fn law_the_cache_is_bounded(
    s: CacheState<Cover>,
    generation: u64,
    folder: Seq<char>,
    value: Cover,
)
    requires
        s.entries.dom().finite(),
    ensures
        ({
            let after = cache::stored(with_room(s), generation, folder, value);
            &&& after.entries.dom().finite()
            &&& after.entries.len() <= MAX_ENTRIES
            &&& cache::is_past(s) && generation <= s.generation ==> cache::is_past(after)
        }),
{
    let roomy = with_room(s);
    lemma_pruned(s);
    assert(roomy.entries.dom().finite());
    assert(roomy.entries.insert(folder, (generation, value)).dom() =~= roomy.entries.dom().insert(
        folder,
    ));
}

/// What is left after pruning are the folders with a live value.
proof fn lemma_pruned(s: CacheState<Cover>)
    requires
        s.entries.dom().finite(),
    ensures
        pruned(s).entries.dom() == cache::live_folders(s),
        pruned(s).entries.dom().finite(),
        pruned(s).entries.len() <= s.entries.len(),
{
    assert(pruned(s).entries.dom() =~= cache::live_folders(s));
    cache::lemma_live_folders(s);
}

/// Caching a cover makes it live, and keeps every other live cover, unless the
/// live ones alone fill the cache: then all of them are dropped. There are never
/// more live covers than the bound.
pub proof fn law_a_new_cover_spares_the_live_ones(
    s: CacheState<Cover>,
    folder: Seq<char>,
    value: Cover,
    other: Seq<char>,
)
    requires
        s.entries.dom().finite(),
    ensures
        ({
            let after = cache::stored(with_room(s), s.generation, folder, value);
            &&& cache::live(after, folder) == Some(value)
            &&& other != folder && cache::live_folders(s).len() < MAX_ENTRIES ==> cache::live(
                after,
                other,
            ) == cache::live(s, other)
            &&& other != folder && cache::live_folders(s).len() >= MAX_ENTRIES ==> cache::live(
                after,
                other,
            ) is None
            &&& cache::live_folders(after).len() <= MAX_ENTRIES
        }),
{
    lemma_pruned(s);
    law_the_cache_is_bounded(s, s.generation, folder, value);
    cache::lemma_live_folders(cache::stored(with_room(s), s.generation, folder, value));
}

/// The result of a search that was under way when the cache was invalidated is
/// ignored: nothing is live after it is published.
pub proof fn law_a_search_overtaken_by_a_change_is_ignored(
    s: CacheState<Cover>,
    folder: Seq<char>,
    value: Cover,
    other: Seq<char>,
)
    requires
        cache::is_past(s),
    ensures
        cache::live(arrived(cache::invalidated(s), s.generation, folder, value), other) is None,
{
}

/// A cover published in time is read back, and while there is room every other cover
/// stays as it was.
pub proof fn law_a_search_in_time_is_kept(
    s: CacheState<Cover>,
    folder: Seq<char>,
    value: Cover,
    other: Seq<char>,
)
    ensures
        cache::live(arrived(s, s.generation, folder, value), folder) == Some(value),
        other != folder && s.entries.len() < 16384 ==> cache::live(
            arrived(s, s.generation, folder, value),
            other,
        ) == cache::live(s, other),
{
}

} // verus!
