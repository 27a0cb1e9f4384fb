//! What holds across requests.
//!
//! A world is a cache of holders and the set of the writes that decoration passes
//! have made to the chunks in them. Each request for a chunk acquires holders and
//! claims passes; evictions come in between. The laws of this file speak of both
//! together, and of what a client gets that sends a request twice.
use std::sync::Arc;

use vstd::prelude::*;

use crate::contexts::{
    after_steps, lemma_context_stays_the_same, never_stale, CachedContext, ContextStep,
};
use crate::decoration::{
    due_passes, is_decorated, leaves_holder, lemma_bare_target_needs_all_passes,
    lemma_decorated_chunk_is_left_alone, lemma_due_passes, lemma_target_is_decorated_in_full,
    runs_due, runs_in, runs_to, written_after, written_kept, PassEvent, PassRun, PassWrite,
};
use crate::holders::HolderState;
use crate::neighborhood::{
    area, area_fits, lemma_area_is_the_square, FEATURE_RADIUS, PASS_RADIUS,
};
use crate::protocol::{request_of, response_frame, REQUEST_SIZE, STATUS_OK};

verus! {

/// Passes have written only to chunks that have a holder.
pub open spec fn writes_are_held<H, M>(
    cache: HolderState<H, M>,
    written: Set<PassWrite>,
) -> bool {
    forall|write: PassWrite| #[trigger]
        written.contains(write) ==> cache.holders.contains_key(write.chunk)
}

/// A request keeps [`writes_are_held`]: it acquires a holder for every chunk that
/// its passes write to.
pub proof fn lemma_request_keeps_writes_held<H, M>(
    cache: HolderState<H, M>,
    after: HolderState<H, M>,
    written: Set<PassWrite>,
    chunk_x: i32,
    chunk_z: i32,
)
    requires
        writes_are_held(cache, written),
        area_fits(chunk_x, chunk_z, FEATURE_RADIUS as int),
        cache.acquires_holders(after, chunk_x, chunk_z),
    ensures
        writes_are_held(after, written_after(written, chunk_x, chunk_z)),
{
    let wide = area(chunk_x, chunk_z, FEATURE_RADIUS as int);
    lemma_area_is_the_square(chunk_x, chunk_z, FEATURE_RADIUS as int);
    lemma_due_passes(written, chunk_x, chunk_z);
    assert forall|write: PassWrite| #[trigger]
        written_after(written, chunk_x, chunk_z).contains(write) implies after.holders.contains_key(
        write.chunk,
    ) by {
        if written.contains(write) {
            assert(cache.holders.dom().contains(write.chunk));
        } else {
            assert(due_passes(written, chunk_x, chunk_z).contains(write.center));
            assert(wide.contains(write.chunk));
            assert(wide.to_set().contains(write.chunk));
        }
    }
}

/// An eviction keeps [`writes_are_held`]: the writes to the chunks that leave are
/// forgotten.
pub proof fn lemma_eviction_keeps_writes_held<H, M>(
    cache: HolderState<H, M>,
    written: Set<PassWrite>,
)
    requires
        cache.wf(),
        writes_are_held(cache, written),
    ensures
        writes_are_held(cache.evicted(), written_kept(written, cache.leaving())),
{
    cache.lemma_leaving_positions();
    let gone = cache.leaving()->0;
    assert forall|write: PassWrite| #[trigger]
        written_kept(written, cache.leaving()).contains(
            write,
        ) implies cache.evicted().holders.contains_key(write.chunk) by {
        assert(cache.holders.dom().contains(write.chunk));
        assert(!gone.to_set().contains(write.chunk));
    }
}

/// A target that is generated because it has no holder gets all nine passes,
/// whichever of the chunks around it have holders.
pub proof fn lemma_new_target_gets_all_passes<H, M>(
    cache: HolderState<H, M>,
    written: Set<PassWrite>,
    chunk_x: i32,
    chunk_z: i32,
)
    requires
        writes_are_held(cache, written),
        area_fits(chunk_x, chunk_z, PASS_RADIUS as int),
        !cache.holders.contains_key((chunk_x, chunk_z)),
    ensures
        due_passes(written, chunk_x, chunk_z) == area(chunk_x, chunk_z, PASS_RADIUS as int),
{
    lemma_bare_target_needs_all_passes(written, chunk_x, chunk_z);
}

/// `event` takes the holders of a world from `before` to `after`. Nothing is said
/// of the mutexes, which change while chunks are carved.
pub open spec fn moves_holders<H, M>(
    before: HolderState<H, M>,
    event: PassEvent,
    after: HolderState<H, M>,
) -> bool {
    match event {
        PassEvent::Target(chunk_x, chunk_z) => area_fits(chunk_x, chunk_z, FEATURE_RADIUS as int)
            && before.acquires_holders(after, chunk_x, chunk_z),
        PassEvent::Evicted(gone) => {
            &&& gone == before.leaving()
            &&& after.holders == before.evicted().holders
            &&& after.order == before.evicted().order
        },
    }
}

/// `states` are the states of the holders of a world before and after each event.
pub open spec fn history<H, M>(states: Seq<HolderState<H, M>>, events: Seq<PassEvent>) -> bool {
    &&& states.len() == events.len() + 1
    &&& forall|k: int|
        0 <= k < events.len() ==> moves_holders(#[trigger] states[k], events[k], states[k + 1])
}

/// A holder stays through any series of requests and evictions in which it is not
/// evicted.
pub proof fn lemma_holder_stays<H, M>(
    states: Seq<HolderState<H, M>>,
    events: Seq<PassEvent>,
    pos: (i32, i32),
)
    requires
        history(states, events),
        forall|k: int| 0 <= k < events.len() ==> leaves_holder(#[trigger] events[k], pos),
        states[0].holders.contains_key(pos),
    ensures
        states.last().holders.contains_key(pos),
        states.last().holders[pos] == states[0].holders[pos],
    decreases events.len(),
{
    if events.len() > 0 {
        let earlier = events.drop_last();
        let k = events.len() - 1;
        assert forall|j: int| 0 <= j < earlier.len() implies moves_holders(
            #[trigger] states.drop_last()[j],
            earlier[j],
            states.drop_last()[j + 1],
        ) by {
            assert(moves_holders(states[j], events[j], states[j + 1]));
        }
        assert forall|j: int| 0 <= j < earlier.len() implies leaves_holder(
            #[trigger] earlier[j],
            pos,
        ) by {
            assert(leaves_holder(events[j], pos));
        }
        lemma_holder_stays(states.drop_last(), earlier, pos);
        assert(moves_holders(states[k], events[k], states[k + 1]));
        assert(leaves_holder(events[k], pos));
        match events[k] {
            PassEvent::Target(_, _) => {},
            PassEvent::Evicted(gone) => {
                assert(gone->0.to_set().contains(pos) <==> gone->0.contains(pos));
            },
        }
    }
}

/// The response to a request whose chunk was generated. `content` stands for the
/// generator: it gives the bytes of a chunk from the context, from the holder
/// that the chunk is in, and from the passes that have written to the chunk.
pub open spec fn chunk_response<C, H>(
    content: spec_fn(Arc<C>, Arc<H>, Seq<(i32, i32)>) -> Seq<u8>,
    context: Arc<C>,
    holder: Arc<H>,
    passes: Seq<(i32, i32)>,
) -> Seq<u8> {
    response_frame(STATUS_OK, content(context, holder, passes))
}

/// A request that is sent twice gets the same response twice, byte for byte,
/// whatever other requests come in between, as long as no sweep finds its context
/// stale and its chunk is not evicted.
///
/// - `bytes` are the bytes of the request, both times.
/// - `contexts` is the cache of contexts when the first request had found its
///   context, and `steps` is what happened to the cache up to the second. Both
///   requests are served by the same context.
/// - `between` is what happened in that context between the two requests, and
///   `states` are the states of its holders: `states[0]` before the first
///   request, then one after each event, the two requests among them. Both times
///   the chunk is in the same holder.
/// - `ran` are the runs of passes in that context before the first request, and
///   `written` what counts as written then. The same passes have written to the
///   chunk both times.
pub proof fn lemma_repeated_request_gets_the_same_response<C, H, M>(
    bytes: Seq<u8>,
    contexts: Map<u64, CachedContext<C>>,
    steps: Seq<ContextStep<C>>,
    states: Seq<HolderState<Arc<H>, Arc<M>>>,
    between: Seq<PassEvent>,
    ran: Seq<PassRun>,
    written: Set<PassWrite>,
    content: spec_fn(Arc<C>, Arc<H>, Seq<(i32, i32)>) -> Seq<u8>,
)
    requires
        bytes.len() == REQUEST_SIZE,
        contexts.contains_key(request_of(bytes).seed),
        never_stale(contexts, steps, request_of(bytes).seed),
        states.len() == between.len() + 3,
        moves_holders(
            states[0],
            PassEvent::Target(request_of(bytes).chunk_x, request_of(bytes).chunk_z),
            states[1],
        ),
        history(
            states.drop_first(),
            between.push(PassEvent::Target(request_of(bytes).chunk_x, request_of(bytes).chunk_z)),
        ),
        forall|k: int|
            0 <= k < between.len() ==> leaves_holder(
                #[trigger] between[k],
                (request_of(bytes).chunk_x, request_of(bytes).chunk_z),
            ),
    ensures
        ({
            let request = request_of(bytes);
            let pos = (request.chunk_x, request.chunk_z);
            let first_runs = ran + runs_due(written, pos.0, pos.1);
            let all_runs = first_runs + runs_in(
                written_after(written, pos.0, pos.1),
                between.push(PassEvent::Target(pos.0, pos.1)),
            );
            &&& after_steps(contexts, steps).contains_key(request.seed)
            &&& after_steps(contexts, steps)[request.seed].context
                == contexts[request.seed].context
            &&& states[1].holders.contains_key(pos)
            &&& states.last().holders.contains_key(pos)
            &&& states.last().holders[pos] == states[1].holders[pos]
            &&& is_decorated(written_after(written, pos.0, pos.1), pos)
            &&& runs_to(all_runs, pos) == runs_to(first_runs, pos)
            &&& chunk_response(
                content,
                after_steps(contexts, steps)[request.seed].context,
                states.last().holders[pos],
                runs_to(all_runs, pos),
            ) == chunk_response(
                content,
                contexts[request.seed].context,
                states[1].holders[pos],
                runs_to(first_runs, pos),
            )
        }),
{
    let request = request_of(bytes);
    let pos = (request.chunk_x, request.chunk_z);
    let target = PassEvent::Target(pos.0, pos.1);
    let later = between.push(target);
    lemma_context_stays_the_same(contexts, steps, request.seed);

    lemma_area_is_the_square(pos.0, pos.1, FEATURE_RADIUS as int);
    let wide = area(pos.0, pos.1, FEATURE_RADIUS as int);
    assert(wide.contains(pos));
    assert(wide.to_set().contains(pos));
    assert forall|k: int| 0 <= k < later.len() implies leaves_holder(#[trigger] later[k], pos) by {
        if k < between.len() {
            assert(leaves_holder(between[k], pos));
        }
    }
    lemma_holder_stays(states.drop_first(), later, pos);

    let after = written_after(written, pos.0, pos.1);
    let first_runs = ran + runs_due(written, pos.0, pos.1);
    let later_runs = runs_in(after, later);
    let near = |run: PassRun| run.chunks.contains(pos);
    lemma_target_is_decorated_in_full(written, pos.0, pos.1);
    lemma_decorated_chunk_is_left_alone(after, later, pos);
    assert forall|i: int| 0 <= i < later_runs.len() implies !near(#[trigger] later_runs[i]) by {}
    later_runs.lemma_all_neg_filter_empty(near);
    Seq::filter_distributes_over_add(first_runs, later_runs, near);
    assert((first_runs + later_runs).filter(near) =~= first_runs.filter(near));
}

} // verus!
