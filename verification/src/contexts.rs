//! One world generation context per seed.
//!
//! Setting up a context is slow, so the server keeps the contexts that were
//! used recently. Times are nanoseconds of a clock that never runs backwards,
//! counted from any fixed moment.
use std::collections::HashMap;
use std::sync::Arc;

use vstd::prelude::*;

verus! {

/// How long a context may sit unused before a sweep evicts it: five minutes.
pub const CONTEXT_IDLE_TIMEOUT: u128 = 300_000_000_000;

/// How long the sweeper waits between two sweeps: one minute.
pub const SWEEP_INTERVAL: u128 = 60_000_000_000;

/// A context and the time at which it was last used.
pub struct CachedContext<C> {
    /// The context.
    pub context: Arc<C>,
    /// When it was last used.
    pub last_used: u128,
}

/// The time from `last_used` to `now`, and none where `last_used` is later.
pub open spec fn idle_time(last_used: u128, now: u128) -> int {
    if last_used <= now {
        now - last_used
    } else {
        0
    }
}

/// A context that was last used at `last_used` stays at time `now`.
pub open spec fn is_fresh(last_used: u128, now: u128) -> bool {
    idle_time(last_used, now) < CONTEXT_IDLE_TIMEOUT
}

/// The cache after the context for `seed`, if there is one, was used at `now`.
pub open spec fn touched<C>(
    cache: Map<u64, CachedContext<C>>,
    seed: u64,
    now: u128,
) -> Map<u64, CachedContext<C>> {
    if cache.contains_key(seed) {
        cache.insert(seed, CachedContext { context: cache[seed].context, last_used: now })
    } else {
        cache
    }
}

/// The cache after a new context for `seed` was offered at `now`: the new one
/// enters only where there is none. Whichever is in the cache then counts as
/// used at `now`.
pub open spec fn published<C>(
    cache: Map<u64, CachedContext<C>>,
    seed: u64,
    context: Arc<C>,
    now: u128,
) -> Map<u64, CachedContext<C>> {
    let shared = if cache.contains_key(seed) {
        cache[seed].context
    } else {
        context
    };
    cache.insert(seed, CachedContext { context: shared, last_used: now })
}

/// The cache after a sweep at `now`.
pub open spec fn swept<C>(cache: Map<u64, CachedContext<C>>, now: u128) -> Map<
    u64,
    CachedContext<C>,
> {
    cache.restrict(
        Set::new(|seed: u64| cache.contains_key(seed) && is_fresh(cache[seed].last_used, now)),
    )
}

/// Map of world seed to context and last use.
pub struct ContextCache<C> {
    contexts: HashMap<u64, CachedContext<C>>,
}

impl<C> View for ContextCache<C> {
    type V = Map<u64, CachedContext<C>>;

    closed spec fn view(&self) -> Map<u64, CachedContext<C>> {
        self.contexts@
    }
}

impl<C> ContextCache<C> {
    /// A cache without contexts.
    pub fn new() -> (cache: Self)
        ensures
            cache@ == Map::<u64, CachedContext<C>>::empty(),
    {
        ContextCache { contexts: HashMap::new() }
    }

    /// The context for `seed`, if there is one, which counts as used at `now`.
    pub fn lookup(&mut self, seed: u64, now: u128) -> (found: Option<Arc<C>>)
        ensures
            final(self)@ == touched(old(self)@, seed, now),
            found == if old(self)@.contains_key(seed) {
                Some(old(self)@[seed].context)
            } else {
                None
            },
    {
        let existing: Option<Arc<C>> = match self.contexts.get(&seed) {
            Some(cached) => Some(Arc::clone(&cached.context)),
            None => None,
        };
        match existing {
            Some(context) => {
                self.contexts.insert(
                    seed,
                    CachedContext { context: Arc::clone(&context), last_used: now },
                );
                Some(context)
            },
            None => None,
        }
    }

    /// Offers a context that was set up for `seed`, and returns the one to use.
    /// Where somebody else was faster, that is the one in the cache, and the new
    /// one is discarded. Either way the context to use counts as used at `now`.
    pub fn publish(&mut self, seed: u64, context: Arc<C>, now: u128) -> (shared: Arc<C>)
        ensures
            final(self)@ == published(old(self)@, seed, context, now),
            shared == final(self)@[seed].context,
    {
        let existing: Option<Arc<C>> = match self.contexts.get(&seed) {
            Some(cached) => Some(Arc::clone(&cached.context)),
            None => None,
        };
        let shared = match existing {
            Some(earlier) => earlier,
            None => context,
        };
        self.contexts.insert(seed, CachedContext { context: Arc::clone(&shared), last_used: now });
        shared
    }

    /// Evicts the contexts that have not been used recently.
    pub fn sweep(&mut self, now: u128)
        ensures
            final(self)@ == swept(old(self)@, now),
    {
        let ghost start = self@;
        let ghost is_stale = |seed: u64|
            start.contains_key(seed) && !is_fresh(start[seed].last_used, now);
        let mut stale: Vec<u64> = Vec::new();
        let ghost mut seen: Seq<u64> = Seq::empty();
        for seed in it: self.contexts.keys()
            invariant
                self@ == start,
                is_stale == (|seed: u64|
                    start.contains_key(seed) && !is_fresh(start[seed].last_used, now)),
                it.seq().unref().to_set() == start.dom(),
                seen == it.seq().unref().take(it.index()),
                it.index() == it.seq().len() ==> seen == it.seq().unref(),
                forall|key: u64| #[trigger]
                    stale@.contains(key) <==> seen.contains(key) && is_stale(key),
        {
            proof {
                assert(it.seq().unref()[it.index()] == *seed);
                assert(it.seq().unref().to_set().contains(*seed));
            }
            let expired = match self.contexts.get(seed) {
                Some(cached) => now.saturating_sub(cached.last_used) >= CONTEXT_IDLE_TIMEOUT,
                None => false,
            };
            let ghost before = stale@;
            if expired {
                stale.push(*seed);
            }
            proof {
                lemma_push_contains(seen, *seed);
                lemma_push_contains(before, *seed);
                seen = seen.push(*seed);
                assert(seen =~= it.seq().unref().take(it.index() + 1));
            }
        }
        assert forall|key: u64| #[trigger] start.contains_key(key) implies seen.contains(key) by {
            assert(seen.to_set().contains(key));
        }
        let mut i: usize = 0;
        assert(self@ =~= start.remove_keys(stale@.take(0).to_set()));
        while i < stale.len()
            invariant
                i <= stale@.len(),
                self@ == start.remove_keys(stale@.take(i as int).to_set()),
            decreases stale@.len() - i,
        {
            let ghost removed = stale@.take(i as int);
            proof {
                assert(stale@.take(i + 1) =~= removed.push(stale@[i as int]));
                removed.lemma_push_to_set_commute(stale@[i as int]);
            }
            self.contexts.remove(&stale[i]);
            i = i + 1;
            assert(self@ =~= start.remove_keys(stale@.take(i as int).to_set()));
        }
        assert(stale@.take(i as int) =~= stale@);
        assert(self@ =~= swept(start, now));
    }
}

/// What a sequence with one more element contains.
proof fn lemma_push_contains(elements: Seq<u64>, element: u64)
    ensures
        forall|key: u64| #[trigger]
            elements.push(element).contains(key) <==> elements.contains(key) || key == element,
{
    let more = elements.push(element);
    assert forall|key: u64| #[trigger] more.contains(key) <==> elements.contains(key) || key
        == element by {
        if elements.contains(key) {
            let j = choose|j: int| 0 <= j < elements.len() && elements[j] == key;
            assert(more[j] == key);
        }
        if key == element {
            assert(more[elements.len() as int] == key);
        }
    }
}

/// A context that is used survives every sweep for the idle timeout from then
/// on.
pub proof fn lemma_used_context_stays<C>(
    cache: Map<u64, CachedContext<C>>,
    seed: u64,
    used: u128,
    now: u128,
)
    requires
        cache.contains_key(seed),
        now < used + CONTEXT_IDLE_TIMEOUT,
    ensures
        swept(touched(cache, seed, used), now).contains_key(seed),
        swept(touched(cache, seed, used), now)[seed].context == cache[seed].context,
{
}

/// After a sweep every context is fresh, no context has changed, and only stale
/// ones are gone.
pub proof fn lemma_sweep_evicts_the_stale<C>(cache: Map<u64, CachedContext<C>>, now: u128)
    ensures
        forall|seed: u64| #[trigger]
            swept(cache, now).contains_key(seed) <==> cache.contains_key(seed) && is_fresh(
                cache[seed].last_used,
                now,
            ),
        forall|seed: u64| #[trigger]
            swept(cache, now).contains_key(seed) ==> swept(cache, now)[seed] == cache[seed],
{
}

/// Whoever sets up a context for the same seed later shares the one that was
/// published first, and that counts as a use of it.
pub proof fn lemma_first_context_wins<C>(
    cache: Map<u64, CachedContext<C>>,
    seed: u64,
    first: Arc<C>,
    first_time: u128,
    second: Arc<C>,
    second_time: u128,
)
    requires
        !cache.contains_key(seed),
    ensures
        ({
            let after_first = published(cache, seed, first, first_time);
            let after_second = published(after_first, seed, second, second_time);
            &&& after_first[seed].context == first
            &&& after_second[seed].context == first
            &&& after_second[seed].last_used == second_time
            &&& after_second.remove(seed) == after_first.remove(seed)
        }),
{
}

/// What happens to a cache of contexts.
pub enum ContextStep<C> {
    /// The context for this seed was looked up at this time.
    Lookup(u64, u128),
    /// This context was offered for this seed at this time.
    Publish(u64, Arc<C>, u128),
    /// The cache was swept at this time.
    Sweep(u128),
}

/// The cache after one step.
pub open spec fn after_step<C>(
    cache: Map<u64, CachedContext<C>>,
    step: ContextStep<C>,
) -> Map<u64, CachedContext<C>> {
    match step {
        ContextStep::Lookup(seed, now) => touched(cache, seed, now),
        ContextStep::Publish(seed, context, now) => published(cache, seed, context, now),
        ContextStep::Sweep(now) => swept(cache, now),
    }
}

/// The cache after a series of steps.
pub open spec fn after_steps<C>(
    cache: Map<u64, CachedContext<C>>,
    steps: Seq<ContextStep<C>>,
) -> Map<u64, CachedContext<C>>
    decreases steps.len(),
{
    if steps.len() == 0 {
        cache
    } else {
        after_step(after_steps(cache, steps.drop_last()), steps.last())
    }
}

/// No sweep of a series finds the context for `seed` stale.
pub open spec fn never_stale<C>(
    cache: Map<u64, CachedContext<C>>,
    steps: Seq<ContextStep<C>>,
    seed: u64,
) -> bool
    decreases steps.len(),
{
    steps.len() > 0 ==> {
        &&& never_stale(cache, steps.drop_last(), seed)
        &&& match steps.last() {
            ContextStep::Sweep(now) => is_fresh(
                after_steps(cache, steps.drop_last())[seed].last_used,
                now,
            ),
            _ => true,
        }
    }
}

/// Whatever happens to the cache, a context stays the one for its seed as long
/// as no sweep finds it stale.
pub proof fn lemma_context_stays_the_same<C>(
    cache: Map<u64, CachedContext<C>>,
    steps: Seq<ContextStep<C>>,
    seed: u64,
)
    requires
        cache.contains_key(seed),
        never_stale(cache, steps, seed),
    ensures
        after_steps(cache, steps).contains_key(seed),
        after_steps(cache, steps)[seed].context == cache[seed].context,
    decreases steps.len(),
{
    if steps.len() > 0 {
        lemma_context_stays_the_same(cache, steps.drop_last(), seed);
    }
}

/// Using and publishing a context leave those of other seeds alone.
pub proof fn lemma_other_seeds_are_left_alone<C>(
    cache: Map<u64, CachedContext<C>>,
    seed: u64,
    other: u64,
    context: Arc<C>,
    now: u128,
)
    requires
        seed != other,
    ensures
        touched(cache, seed, now).contains_key(other) == cache.contains_key(other),
        touched(cache, seed, now)[other] == cache[other],
        published(cache, seed, context, now).contains_key(other) == cache.contains_key(other),
        published(cache, seed, context, now)[other] == cache[other],
{
}

/// Once a context was published for a seed, the next request for that seed finds
/// the context that was shared then.
pub proof fn lemma_published_context_is_reused<C>(
    cache: Map<u64, CachedContext<C>>,
    seed: u64,
    context: Arc<C>,
    now: u128,
    later: u128,
)
    ensures
        ({
            let after = published(cache, seed, context, now);
            &&& after.contains_key(seed)
            &&& touched(after, seed, later)[seed].context == after[seed].context
            &&& after[seed].context == if cache.contains_key(seed) {
                cache[seed].context
            } else {
                context
            }
        }),
{
}

/// A lookup is a use: the context of the seed, where there is one, was last used
/// then and is still the same context; no context comes or goes, and those of
/// other seeds are as they were.
pub proof fn lemma_lookup_is_a_use<C>(
    cache: Map<u64, CachedContext<C>>,
    seed: u64,
    other: u64,
    now: u128,
)
    ensures
        touched(cache, seed, now).dom() == cache.dom(),
        cache.contains_key(seed) ==> touched(cache, seed, now)[seed].last_used == now,
        cache.contains_key(seed) ==> touched(cache, seed, now)[seed].context
            == cache[seed].context,
        cache.contains_key(other) && other != seed ==> touched(cache, seed, now)[other]
            == cache[other],
{
    assert(touched(cache, seed, now).dom() =~= cache.dom());
}

/// Publishing is a use: there is one context for the seed afterwards, last used
/// then, the earlier one where there was one and else the new one; nothing else
/// comes, goes or changes.
pub proof fn lemma_publishing_is_a_use<C>(
    cache: Map<u64, CachedContext<C>>,
    seed: u64,
    other: u64,
    context: Arc<C>,
    now: u128,
)
    ensures
        published(cache, seed, context, now).dom() == cache.dom().insert(seed),
        published(cache, seed, context, now)[seed].last_used == now,
        cache.contains_key(seed) ==> published(cache, seed, context, now)[seed].context
            == cache[seed].context,
        !cache.contains_key(seed) ==> published(cache, seed, context, now)[seed].context == context,
        cache.contains_key(other) && other != seed ==> published(cache, seed, context, now)[other]
            == cache[other],
{
    assert(published(cache, seed, context, now).dom() =~= cache.dom().insert(seed));
}

/// A sweep keeps a context exactly if less than five minutes, in nanoseconds,
/// have passed since its last use, and changes none that it keeps.
pub proof fn lemma_sweep_keeps_five_minutes<C>(
    cache: Map<u64, CachedContext<C>>,
    seed: u64,
    now: u128,
)
    ensures
        swept(cache, now).contains_key(seed) <==> cache.contains_key(seed) && now
            < cache[seed].last_used + 5 * 60 * 1_000_000_000,
        swept(cache, now).contains_key(seed) ==> swept(cache, now)[seed] == cache[seed],
{
}

/// A context that is looked up or published and then left alone for five minutes
/// leaves with the next sweep, and not before.
pub proof fn lemma_unused_context_leaves<C>(
    cache: Map<u64, CachedContext<C>>,
    seed: u64,
    context: Arc<C>,
    used: u128,
    now: u128,
)
    ensures
        cache.contains_key(seed) ==> (swept(touched(cache, seed, used), now).contains_key(seed)
            <==> now < used + 5 * 60 * 1_000_000_000),
        swept(published(cache, seed, context, used), now).contains_key(seed) <==> now < used + 5 * 60
            * 1_000_000_000,
{
}

/// `step` looks up or publishes a context for `seed`.
pub open spec fn uses_seed<C>(step: ContextStep<C>, seed: u64) -> bool {
    match step {
        ContextStep::Lookup(used, _) => used == seed,
        ContextStep::Publish(used, _, _) => used == seed,
        ContextStep::Sweep(_) => false,
    }
}

/// Whatever happens to other seeds, a context that nobody uses keeps its last use
/// as long as it stays, and is gone after a sweep five minutes after that use.
pub proof fn lemma_abandoned_context_leaves<C>(
    cache: Map<u64, CachedContext<C>>,
    steps: Seq<ContextStep<C>>,
    seed: u64,
    now: u128,
)
    requires
        cache.contains_key(seed),
        forall|k: int| 0 <= k < steps.len() ==> !uses_seed(#[trigger] steps[k], seed),
        now >= cache[seed].last_used + 5 * 60 * 1_000_000_000,
    ensures
        after_steps(cache, steps).contains_key(seed) ==> after_steps(cache, steps)[seed]
            == cache[seed],
        !after_steps(cache, steps.push(ContextStep::Sweep(now))).contains_key(seed),
    decreases steps.len(),
{
    let more = steps.push(ContextStep::<C>::Sweep(now));
    assert(more.drop_last() =~= steps);
    if steps.len() > 0 {
        let earlier = steps.drop_last();
        assert forall|k: int| 0 <= k < earlier.len() implies !uses_seed(
            #[trigger] earlier[k],
            seed,
        ) by {
            assert(!uses_seed(steps[k], seed));
        }
        lemma_abandoned_context_leaves(cache, earlier, seed, now);
        assert(!uses_seed(steps[steps.len() - 1], seed));
    }
    assert(after_steps(cache, more) == swept(after_steps(cache, steps), now));
}

/// The limits are minutes: five until a context is evicted, one between sweeps.
pub proof fn lemma_limits_are_minutes()
    ensures
        CONTEXT_IDLE_TIMEOUT == 5 * 60 * 1_000_000_000,
        SWEEP_INTERVAL == 60 * 1_000_000_000,
{
}

} // verus!
