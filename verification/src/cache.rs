//! The representation cache: one comparison representation per image path,
//! or the reason why there is none.
//!
//! Producing a representation is expensive, so it is done at most once per
//! path.  The cache does not produce anything itself.  A caller asks for a
//! path with [`RepresentationCache::get_or_compute`] and is told to use what
//! is there, to produce the representation, or to wait for the caller who is
//! producing it; the producer hands the outcome in with
//! [`RepresentationCache::settle`].  A failure is an outcome like any other:
//! it is kept and never tried again.

use vstd::hash_map::StringHashMap;
use vstd::prelude::*;

verus! {

/// What the cache holds for a path.
pub enum Slot<R> {
    /// Some caller has been told to produce the representation.
    InFlight,
    /// The representation.
    Ready(R),
    /// Why the image has no representation.
    Failed(String),
}

/// What the cache holds for a path, with the failure's reason as text.
pub enum Entry<R> {
    InFlight,
    Ready(R),
    Failed(Seq<char>),
}

impl<R> View for Slot<R> {
    type V = Entry<R>;

    open spec fn view(&self) -> Entry<R> {
        match *self {
            Slot::InFlight => Entry::InFlight,
            Slot::Ready(representation) => Entry::Ready(representation),
            Slot::Failed(reason) => Entry::Failed(reason@),
        }
    }
}

/// The entry that an outcome becomes.
pub open spec fn entry_of<R>(outcome: Result<R, String>) -> Entry<R> {
    match outcome {
        Ok(representation) => Entry::Ready(representation),
        Err(reason) => Entry::Failed(reason@),
    }
}

/// The answer to a caller who asks for a path.
#[derive(Clone, Copy, Debug, PartialEq, Eq, Structural)]
pub enum Lookup {
    /// The outcome is in the cache.
    Hit,
    /// Nobody has asked before: the caller produces the representation and
    /// settles the path.
    Compute,
    /// Another caller is producing the representation.
    Wait,
}

/// Whether the outcome for `path` is in the cache.
pub open spec fn is_settled<R>(cache: Map<Seq<char>, Entry<R>>, path: Seq<char>) -> bool {
    cache.contains_key(path) && !(cache[path] is InFlight)
}

/// Whether `path` is settled as a failure.
pub open spec fn is_failed<R>(cache: Map<Seq<char>, Entry<R>>, path: Seq<char>) -> bool {
    cache.contains_key(path) && cache[path] is Failed
}

/// The answer to a caller who asks for `path`.
pub open spec fn lookup_of<R>(cache: Map<Seq<char>, Entry<R>>, path: Seq<char>) -> Lookup {
    if !cache.contains_key(path) {
        Lookup::Compute
    } else if cache[path] is InFlight {
        Lookup::Wait
    } else {
        Lookup::Hit
    }
}

/// The cache after a caller has asked for `path`.
pub open spec fn after_lookup<R>(cache: Map<Seq<char>, Entry<R>>, path: Seq<char>) -> Map<
    Seq<char>,
    Entry<R>,
> {
    if cache.contains_key(path) {
        cache
    } else {
        cache.insert(path, Entry::InFlight)
    }
}

/// The cache after an outcome for `path` has been handed in: the first
/// outcome stays.
pub open spec fn after_settle<R>(cache: Map<Seq<char>, Entry<R>>, path: Seq<char>, entry: Entry<R>) -> Map<
    Seq<char>,
    Entry<R>,
> {
    if is_settled(cache, path) {
        cache
    } else {
        cache.insert(path, entry)
    }
}

/// The cache of comparison representations of type `R`, by image path.
#[verifier::reject_recursive_types(R)]
pub struct RepresentationCache<R> {
    slots: StringHashMap<Slot<R>>,
}

impl<R> View for RepresentationCache<R> {
    type V = Map<Seq<char>, Entry<R>>;

    closed spec fn view(&self) -> Map<Seq<char>, Entry<R>> {
        Map::new(|path: Seq<char>| self.slots@.contains_key(path), |path: Seq<char>| self.slots@[path]@)
    }
}

impl<R> RepresentationCache<R> {
    /// An empty cache.
    pub fn new() -> (cache: RepresentationCache<R>)
        ensures
            cache@ == Map::<Seq<char>, Entry<R>>::empty(),
    {
        let cache = RepresentationCache { slots: StringHashMap::new() };
        assert(cache@ =~= Map::<Seq<char>, Entry<R>>::empty());
        cache
    }

    /// Asks for the representation of `path`.
    ///
    /// The first caller to ask for a path is told to produce the
    /// representation, and the path is marked as in flight.  Until the
    /// outcome is settled, every other caller is told to wait; from then on
    /// every caller is told that the outcome is there, whether it is a
    /// representation or a failure.
    pub fn get_or_compute(&mut self, path: &String) -> (lookup: Lookup)
        ensures
            lookup == lookup_of(old(self)@, path@),
            final(self)@ == after_lookup(old(self)@, path@),
    {
        let lookup = match self.slots.get(path.as_str()) {
            None => Lookup::Compute,
            Some(Slot::InFlight) => Lookup::Wait,
            Some(_) => Lookup::Hit,
        };
        if let Lookup::Compute = lookup {
            self.slots.insert(path.clone(), Slot::InFlight);
            assert(self@ =~= old(self)@.insert(path@, Entry::InFlight));
        }
        lookup
    }

    /// Hands in the outcome for `path`: the representation, or the reason
    /// why there is none.
    ///
    /// The outcome is kept unless the path is settled already; it is then
    /// dropped and the cache stays as it is.  Tells whether it was kept.
    pub fn settle(&mut self, path: &String, outcome: Result<R, String>) -> (kept: bool)
        ensures
            kept == !is_settled(old(self)@, path@),
            final(self)@ == after_settle(old(self)@, path@, entry_of(outcome)),
    {
        let settled = match self.slots.get(path.as_str()) {
            None => false,
            Some(Slot::InFlight) => false,
            Some(_) => true,
        };
        if settled {
            return false;
        }
        let slot = match outcome {
            Ok(representation) => Slot::Ready(representation),
            Err(reason) => Slot::Failed(reason),
        };
        self.slots.insert(path.clone(), slot);
        assert(self@ =~= old(self)@.insert(path@, entry_of(outcome)));
        true
    }

    /// The settled outcome for `path`: the representation, or the reason why
    /// there is none.  `None` while the path is unknown or in flight.
    pub fn get(&self, path: &String) -> (outcome: Option<Result<&R, &String>>)
        ensures
            match outcome {
                Some(Ok(representation)) => self@.contains_key(path@) && self@[path@] == Entry::Ready(
                    *representation,
                ),
                Some(Err(reason)) => self@.contains_key(path@) && self@[path@] == Entry::<R>::Failed(
                    reason@,
                ),
                None => !is_settled(self@, path@),
            },
    {
        match self.slots.get(path.as_str()) {
            Some(Slot::Ready(representation)) => Some(Ok(representation)),
            Some(Slot::Failed(reason)) => Some(Err(reason)),
            _ => None,
        }
    }

    /// Tells whether `path` is settled as a failure.
    pub fn has_failed(&self, path: &String) -> (failed: bool)
        ensures
            failed == is_failed(self@, path@),
    {
        match self.slots.get(path.as_str()) {
            Some(Slot::Failed(_)) => true,
            _ => false,
        }
    }
}

/// One call on the cache.
pub enum Call<R> {
    /// A caller asks for a path.
    Lookup(Seq<char>),
    /// A caller hands in an outcome for a path.
    Settle(Seq<char>, Entry<R>),
}

/// The cache after one call.
pub open spec fn after_call<R>(cache: Map<Seq<char>, Entry<R>>, call: Call<R>) -> Map<Seq<char>, Entry<R>> {
    match call {
        Call::Lookup(path) => after_lookup(cache, path),
        Call::Settle(path, entry) => after_settle(cache, path, entry),
    }
}

/// The cache after a series of calls, in the order in which they took
/// effect.
pub open spec fn after_calls<R>(cache: Map<Seq<char>, Entry<R>>, calls: Seq<Call<R>>) -> Map<
    Seq<char>,
    Entry<R>,
>
    decreases calls.len(),
{
    if calls.len() == 0 {
        cache
    } else {
        after_call(after_calls(cache, calls.drop_last()), calls.last())
    }
}

/// How many of the calls were told to produce the representation of `path`.
pub open spec fn computations<R>(cache: Map<Seq<char>, Entry<R>>, calls: Seq<Call<R>>, path: Seq<char>) -> nat
    decreases calls.len(),
{
    if calls.len() == 0 {
        0
    } else {
        let earlier = computations(cache, calls.drop_last(), path);
        let told = calls.last() == Call::<R>::Lookup(path) && lookup_of(
            after_calls(cache, calls.drop_last()),
            path,
        ) == Lookup::Compute;
        if told {
            earlier + 1
        } else {
            earlier
        }
    }
}

/// The cache forgets nothing: a path that is known stays known, and a
/// settled outcome is never replaced, whatever calls follow.
pub proof fn lemma_cache_keeps<R>(cache: Map<Seq<char>, Entry<R>>, calls: Seq<Call<R>>, path: Seq<char>)
    ensures
        cache.contains_key(path) ==> after_calls(cache, calls).contains_key(path),
        is_settled(cache, path) ==> is_settled(after_calls(cache, calls), path) && after_calls(
            cache,
            calls,
        )[path] == cache[path],
    decreases calls.len(),
{
    if calls.len() > 0 {
        lemma_cache_keeps(cache, calls.drop_last(), path);
    }
}

/// Single flight: whatever callers ask and hand in, and in whatever order,
/// at most one of them is told to produce the representation of a path, and
/// none if the path was known before.
pub proof fn lemma_single_flight<R>(cache: Map<Seq<char>, Entry<R>>, calls: Seq<Call<R>>, path: Seq<char>)
    ensures
        computations(cache, calls, path) <= 1,
        cache.contains_key(path) ==> computations(cache, calls, path) == 0,
        computations(cache, calls, path) == 1 ==> after_calls(cache, calls).contains_key(path),
    decreases calls.len(),
{
    if calls.len() > 0 {
        let front = calls.drop_last();
        lemma_single_flight(cache, front, path);
        lemma_cache_keeps(cache, front, path);
    }
}

/// When the first call on an unknown path asks for it, exactly one caller
/// is told to produce its representation, however many ask after that.
pub proof fn lemma_first_caller_computes<R>(
    cache: Map<Seq<char>, Entry<R>>,
    calls: Seq<Call<R>>,
    path: Seq<char>,
)
    requires
        !cache.contains_key(path),
        calls.len() > 0,
        calls[0] == Call::<R>::Lookup(path),
    ensures
        computations(cache, calls, path) == 1,
    decreases calls.len(),
{
    let front = calls.drop_last();
    if front.len() == 0 {
        assert(computations(cache, front, path) == 0);
        assert(after_calls(cache, front) == cache);
    } else {
        assert(front[0] == calls[0]);
        lemma_first_caller_computes(cache, front, path);
        lemma_single_flight(cache, front, path);
    }
}

/// A failure is an outcome: once a path is settled as failed, every caller
/// who asks is told that the outcome is there, and the reason stays.
pub proof fn lemma_failure_is_kept<R>(
    cache: Map<Seq<char>, Entry<R>>,
    path: Seq<char>,
    reason: Seq<char>,
    calls: Seq<Call<R>>,
)
    requires
        !is_settled(cache, path),
    ensures
        ({
            let failed = after_settle(cache, path, Entry::<R>::Failed(reason));
            &&& lookup_of(after_calls(failed, calls), path) == Lookup::Hit
            &&& after_calls(failed, calls)[path] == Entry::<R>::Failed(reason)
            &&& computations(failed, calls, path) == 0
        }),
{
    let failed = after_settle(cache, path, Entry::<R>::Failed(reason));
    lemma_cache_keeps(failed, calls, path);
    lemma_single_flight(failed, calls, path);
}

} // verus!
