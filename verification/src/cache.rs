//! The project metadata cache: a bounded LRU passed to the project
//! operations at construction.
//!
//! Write paths that produce updated metadata put it here; reads may
//! consult it but tolerate staleness, since the store stays the
//! authoritative truth.  The cache itself is an outside least-recently-
//! used map, consumed through the contracts below.

use vstd::prelude::*;

use crate::ids::ProjectId;
use crate::types::ProjectMetadata;

verus! {

#[verifier::external_type_specification]
#[verifier::external_body]
#[verifier::reject_recursive_types(K)]
#[verifier::reject_recursive_types(V)]
#[verifier::reject_recursive_types(S)]
pub struct ExLruCache<K, V, S>(lru::LruCache<K, V, S>);

/// What the cache holds, as a map from key characters to metadata.
pub uninterp spec fn lru_contents(c: lru::LruCache<String, ProjectMetadata, std::collections::hash_map::RandomState>) -> Map<
    Seq<char>,
    ProjectMetadata,
>;

/// The bound the cache was created with.
pub uninterp spec fn lru_cap(c: lru::LruCache<String, ProjectMetadata, std::collections::hash_map::RandomState>) -> nat;

/// A bounded least-recently-used map from project identifiers to their
/// metadata.
pub struct ProjectCache {
    pub inner: lru::LruCache<String, ProjectMetadata, std::collections::hash_map::RandomState>,
}

impl ProjectCache {
    pub open spec fn capacity(self) -> nat {
        lru_cap(self.inner)
    }

    /// Relies on `lru::LruCache::with_hasher`: an empty cache that holds
    /// at most `cap` entries.
    #[verifier::external_body]
    pub fn new(cap: usize) -> (r: ProjectCache)
        requires
            cap > 0,
        ensures
            forall|k: Seq<char>| !lru_contents(r.inner).contains_key(k),
            lru_contents(r.inner).dom().finite(),
            lru_cap(r.inner) == cap as nat,
    {
        ProjectCache {
            inner: lru::LruCache::with_hasher(
                std::num::NonZeroUsize::new(cap).unwrap(),
                std::collections::hash_map::RandomState::new(),
            ),
        }
    }

    /// Relies on `lru::LruCache::put`: an existing key has its value
    /// replaced and returned; a fresh key is inserted, evicting at most
    /// the least-recently-used entry when the cache is full.
    #[verifier::external_body]
    pub fn put(&mut self, k: String, v: ProjectMetadata) -> (r: Option<ProjectMetadata>)
        ensures
            lru_cap(final(self).inner) == lru_cap(old(self).inner),
            lru_contents(final(self).inner).contains_key(k@) && lru_contents(
                final(self).inner,
            )[k@] == v,
            lru_contents(final(self).inner).dom().subset_of(
                lru_contents(old(self).inner).dom().insert(k@),
            ),
            forall|k2: Seq<char>| #[trigger] lru_contents(final(self).inner).contains_key(k2)
                && k2 != k@ ==> lru_contents(old(self).inner).contains_key(k2) && lru_contents(
                final(self).inner,
            )[k2] == lru_contents(old(self).inner)[k2],
            lru_contents(old(self).inner).contains_key(k@) ==> lru_contents(
                final(self).inner,
            ).dom() == lru_contents(old(self).inner).dom() && r == Some(
                lru_contents(old(self).inner)[k@],
            ),
            !lru_contents(old(self).inner).contains_key(k@) ==> r is None,
            lru_contents(final(self).inner).dom().finite(),
            lru_contents(final(self).inner).dom().len() <= lru_cap(final(self).inner),
    {
        self.inner.put(k, v)
    }

    /// Relies on `lru::LruCache::get`: the value stored under the key, if
    /// any; only the internal recency order changes.
    #[verifier::external_body]
    pub fn get(&mut self, k: &str) -> (r: Option<&ProjectMetadata>)
        ensures
            lru_cap(final(self).inner) == lru_cap(old(self).inner),
            lru_contents(final(self).inner) == lru_contents(old(self).inner),
            match r {
                Some(v) => lru_contents(old(self).inner).contains_key(k@) && *v == lru_contents(
                    old(self).inner,
                )[k@],
                None => !lru_contents(old(self).inner).contains_key(k@),
            },
    {
        self.inner.get(k)
    }
}

impl View for ProjectCache {
    type V = Map<Seq<char>, ProjectMetadata>;

    open spec fn view(&self) -> Map<Seq<char>, ProjectMetadata> {
        lru_contents(self.inner)
    }
}

/// Records freshly produced metadata in the cache under its identifier:
/// every write path ends here.
pub fn update_project_cache(cache: &mut ProjectCache, metadata: ProjectMetadata)
    ensures
        final(cache).capacity() == old(cache).capacity(),
        final(cache)@.contains_key(metadata.id@) && final(cache)@[metadata.id@] == metadata,
        final(cache)@.dom().subset_of(old(cache)@.dom().insert(metadata.id@)),
        forall|k2: Seq<char>| #[trigger] final(cache)@.contains_key(k2) && k2 != metadata.id@
            ==> old(cache)@.contains_key(k2) && final(cache)@[k2] == old(cache)@[k2],
{
    let key = metadata.id.0.clone();
    cache.put(key, metadata);
}

/// Two metadata values that agree on every observable field.
pub open spec fn metadata_like(a: ProjectMetadata, b: ProjectMetadata) -> bool {
    &&& a.id == b.id
    &&& a.owner == b.owner
    &&& a.name == b.name
    &&& a.updated == b.updated
    &&& a.origin_time == b.origin_time
    &&& a.state == b.state
    &&& a.save_state == b.save_state
    &&& a.collaborators@ == b.collaborators@
    &&& a.network_traces@ == b.network_traces@
    &&& a.roles.entries() == b.roles.entries()
    &&& a.delete_at == b.delete_at
}

/// Splits requested identifiers into cached metadata and the identifiers
/// the store must still be asked for, both in request order.
pub fn get_cached_project_metadata(cache: &mut ProjectCache, ids: &Vec<ProjectId>) -> (r: (
    Vec<ProjectMetadata>,
    Vec<ProjectId>,
))
    ensures
        final(cache).capacity() == old(cache).capacity(),
        final(cache)@ == old(cache)@,
        r.1@ == ids@.filter(|id: ProjectId| !old(cache)@.contains_key(id@)),
        r.0@.len() == ids@.filter(|id: ProjectId| old(cache)@.contains_key(id@)).len(),
        forall|i: int| 0 <= i < r.0@.len() ==> metadata_like(
            #[trigger] r.0@[i],
            old(cache)@[ids@.filter(|id: ProjectId| old(cache)@.contains_key(id@))[i]@],
        ),
{
    let ghost contents = cache@;
    let ghost hit = |id: ProjectId| contents.contains_key(id@);
    let ghost miss = |id: ProjectId| !contents.contains_key(id@);
    let n = ids.len();
    let mut results: Vec<ProjectMetadata> = Vec::new();
    let mut missing: Vec<ProjectId> = Vec::new();
    proof {
        reveal(Seq::filter);
        assert(ids@.subrange(0, 0) =~= Seq::<ProjectId>::empty());
    }
    let mut i: usize = 0;
    while i < n
        invariant
            contents == cache@,
            cache.capacity() == old(cache).capacity(),
            contents == old(cache)@,
            hit == (|id: ProjectId| contents.contains_key(id@)),
            miss == (|id: ProjectId| !contents.contains_key(id@)),
            n == ids@.len(),
            i <= n,
            missing@ == ids@.subrange(0, i as int).filter(miss),
            results@.len() == ids@.subrange(0, i as int).filter(hit).len(),
            forall|l: int| 0 <= l < results@.len() ==> metadata_like(
                #[trigger] results@[l],
                contents[ids@.subrange(0, i as int).filter(hit)[l]@],
            ),
        decreases n - i,
    {
        proof {
            reveal(Seq::filter);
            let prefix = ids@.subrange(0, i + 1);
            assert(prefix.drop_last() =~= ids@.subrange(0, i as int));
            assert(prefix.last() == ids@[i as int]);
            assert(prefix.filter(hit) == if hit(prefix.last()) {
                prefix.drop_last().filter(hit).push(prefix.last())
            } else {
                prefix.drop_last().filter(hit)
            });
            assert(prefix.filter(miss) == if miss(prefix.last()) {
                prefix.drop_last().filter(miss).push(prefix.last())
            } else {
                prefix.drop_last().filter(miss)
            });
        }
        let id = &ids[i];
        match cache.get(id.as_str()) {
            Some(md) => {
                results.push(md.clone());
            },
            None => {
                missing.push(id.clone());
                proof {
                    assert(missing@ =~= ids@.subrange(0, i + 1).filter(miss));
                }
            },
        }
        i = i + 1;
    }
    proof {
        assert(ids@.subrange(0, n as int) =~= ids@);
    }
    (results, missing)
}

} // verus!
