use vstd::prelude::*;
use crate::codec::{cache_key, canonical_of, decodable, decode, key_of, position_of};
use crate::error::{Error, ErrorView};
use crate::partition::{partition_for, partition_of};
use crate::store::{url_for, LinkStore, StoreModel};

verus! {

/// How long, in seconds, a cached URL is kept by a cache that expires entries.
pub const CACHE_TTL_SECS: u64 = 10;

/// The cache's entries, oldest first: `(key, url)`.
pub type CacheModel = Seq<(Seq<char>, Seq<char>)>;

/// The URL cached under `key`: the latest entry written for it.
pub open spec fn cached(c: CacheModel, key: Seq<char>) -> Option<Seq<char>>
    decreases c.len(),
{
    if c.len() == 0 {
        None
    } else if c.last().0 == key {
        Some(c.last().1)
    } else {
        cached(c.drop_last(), key)
    }
}

/// A cache of resolved URLs by `code:ordinal` key. It is never authoritative:
/// a missing key only sends the read on to the store.
pub struct LinkCache {
    entries: Vec<(String, String)>,
}

impl View for LinkCache {
    type V = CacheModel;

    closed spec fn view(&self) -> CacheModel {
        self.entries@.map_values(|e: (String, String)| (e.0@, e.1@))
    }
}

impl LinkCache {
    /// An empty cache.
    pub fn new() -> (r: LinkCache)
        ensures
            r@.len() == 0,
    {
        LinkCache { entries: Vec::new() }
    }

    /// The URL cached under `key`, if any.
    pub fn get(&self, key: &String) -> (r: Option<String>)
        ensures
            match r {
                Some(u) => cached(self@, key@) == Some(u@),
                None => cached(self@, key@) is None,
            },
    {
        let mut i: usize = self.entries.len();
        assert(self@.take(i as int) =~= self@);
        while i > 0
            invariant
                i <= self.entries.len(),
                cached(self@, key@) == cached(self@.take(i as int), key@),
            decreases i,
        {
            assert(self@.take(i as int).drop_last() =~= self@.take(i - 1));
            i = i - 1;
            if self.entries[i].0 == *key {
                return Some(self.entries[i].1.clone());
            }
        }
        None
    }

    /// Caches `url` under `key`.
    pub fn set(&mut self, key: String, url: String)
        ensures
            final(self)@ == old(self)@.push((key@, url@)),
    {
        let ghost e = (key@, url@);
        self.entries.push((key, url));
        assert(self@ =~= old(self)@.push(e));
    }
}

/// The outcome of a read, and the cache after it.
pub open spec fn resolve_model(c: CacheModel, store: Option<StoreModel>, presented: Seq<char>) -> (
    Result<Option<Seq<char>>, ErrorView>,
    CacheModel,
) {
    if !decodable(presented) {
        (Err(ErrorView::Params), c)
    } else {
        let pos = position_of(presented.last());
        let canonical = canonical_of(presented, pos);
        let sequence = (pos % 16) as nat;
        let key = key_of(canonical, sequence);
        match cached(c, key) {
            Some(u) => (Ok(Some(u)), c),
            None => match store {
                None => (Err(ErrorView::StoreUnavailable), c),
                Some(s) => match url_for(s.part(partition_for(canonical[0])), canonical, sequence) {
                    Some(u) => (Ok(Some(u)), c.push((key, u))),
                    None => (Ok(None), c),
                },
            },
        }
    }
}

/// The view of a read's result.
pub open spec fn read_view(r: Result<Option<String>, Error>) -> Result<Option<Seq<char>>, ErrorView> {
    match r {
        Ok(Some(u)) => Ok(Some(u@)),
        Ok(None) => Ok(None),
        Err(e) => Err(e@),
    }
}

/// Resolves a presented code: decodes it, answers from the cache where it
/// can, else looks the record up in its partition of the store (`None`: the
/// store cannot be reached) and caches what it finds. `Ok(None)`: no record.
pub fn resolve(cache: &mut LinkCache, store: Option<&LinkStore>, presented: &str) -> (r: Result<
    Option<String>,
    Error,
>)
    ensures
        (read_view(r), final(cache)@) == resolve_model(
            old(cache)@,
            match store {
                Some(s) => Some(s@),
                None => None,
            },
            presented@,
        ),
{
    let d = match decode(presented) {
        Ok(d) => d,
        Err(e) => {
            return Err(e);
        },
    };
    let key = cache_key(d.canonical.as_str(), d.sequence);
    if let Some(u) = cache.get(&key) {
        return Ok(Some(u));
    }
    match store {
        None => Err(Error::StoreUnavailable),
        Some(s) => {
            let p = partition_of(d.canonical.as_str());
            match s.find(p, &d.canonical, d.sequence) {
                Some(u) => {
                    cache.set(key, u.clone());
                    Ok(Some(u))
                },
                None => Ok(None),
            }
        },
    }
}


/// A read that found a URL answers the same read again from the cache alone,
/// with the cache unchanged, whatever the store holds and even where the store
/// cannot be reached.
pub proof fn lemma_cache_short_circuits(
    c: CacheModel,
    store: Option<StoreModel>,
    later: Option<StoreModel>,
    presented: Seq<char>,
)
    requires
        resolve_model(c, store, presented).0 matches Ok(Some(_)),
    ensures
        resolve_model(resolve_model(c, store, presented).1, later, presented) == resolve_model(
            c,
            store,
            presented,
        ),
{
    let pos = position_of(presented.last());
    let canonical = canonical_of(presented, pos);
    let key = key_of(canonical, (pos % 16) as nat);
    let c1 = resolve_model(c, store, presented).1;
    if cached(c, key) is None {
        assert(c1.drop_last() =~= c);
    }
}

/// A well-formed code with no cached URL and no record of its canonical code
/// and ordinal resolves to `Ok(None)`, not to an error, and caches nothing.
pub proof fn lemma_unresolved_is_not_error(c: CacheModel, s: StoreModel, presented: Seq<char>)
    requires
        decodable(presented),
        ({
            let pos = position_of(presented.last());
            let canonical = canonical_of(presented, pos);
            &&& cached(c, key_of(canonical, (pos % 16) as nat)) is None
            &&& url_for(s.part(partition_for(canonical[0])), canonical, (pos % 16) as nat) is None
        }),
    ensures
        resolve_model(c, Some(s), presented) == (Ok::<Option<Seq<char>>, ErrorView>(None), c),
{
}

} // verus!
