//! The generation of one decorated chunk, step by step.
//!
//! A target chunk is decorated together with its neighbors: the neighborhood
//! gets holders, every chunk in it is carved, the decoration passes that have
//! not written to the target run one after the other, and then the target is
//! taken out.
//! [`TargetJob`] says what comes next; the caller does it and reports back.
use std::sync::Arc;

use rustc_hash::FxHashMap;
use vstd::prelude::*;

use crate::decoration::{
    chunks_due, due_passes, lemma_bare_target_needs_all_passes, lemma_chunks_due,
    lemma_claiming_again_is_empty, lemma_due_passes, lemma_evicted_target_needs_all_passes,
    lemma_runs_are_the_passes, passes_fit, runs_due, runs_of, written_after,
    written_kept, DuePass, PassRun, PassWrite,
};
use crate::holders::HolderState;
use crate::neighborhood::{
    area, area_fits, in_area, lemma_area_is_the_square, lemma_passes_in_order, FEATURE_RADIUS,
    PASS_RADIUS, WRITE_RADIUS,
};
use crate::position_maps::{map_get, map_insert};

verus! {

/// What the caller has to do next.
#[derive(Clone, Copy, Debug, PartialEq, Eq)]
pub enum JobStep {
    /// Shut out all other jobs, evict old holders, and forget what was written to
    /// the chunks that left.
    Evict,
    /// Shut out evictions until the end, and acquire the holders of the
    /// neighborhood.
    Acquire,
    /// Bring every chunk of the neighborhood to the state after carving.
    Carve,
    /// Shut out the passes of other jobs until the end, and claim the passes
    /// that are due.
    ClaimPasses,
    /// Run the decoration pass of the chunk at this position, with stand-ins for
    /// the chunks for which [`TargetJob::needs_stand_in`] says so.
    RunPass((i32, i32)),
    /// Take the target chunk out of its holder.
    Extract,
}

/// What the caller has done.
pub enum JobEvent<H> {
    /// The job began; `crowded` says whether holders should be evicted.
    Started {
        /// Whether holders should be evicted.
        crowded: bool,
    },
    /// Old holders were evicted, and what was written to their chunks forgotten.
    Evicted,
    /// These are the holders of the neighborhood, with their positions.
    Acquired(Vec<((i32, i32), Arc<H>)>),
    /// All chunks of the neighborhood are carved.
    Carved,
    /// These passes were claimed, in this order.
    Claimed(Vec<DuePass>),
    /// The pass that was asked for has run.
    PassRun,
}

/// Where a job stands.
#[derive(Clone, Copy, Debug, PartialEq, Eq, Structural)]
pub enum JobPhase {
    /// Not begun.
    Starting,
    /// Old holders are being evicted.
    Evicting,
    /// Holders are being acquired.
    Acquiring,
    /// Chunks are being carved.
    Carving,
    /// Passes are being claimed.
    Claiming,
    /// A pass is running.
    Decorating,
    /// The target is being taken out.
    Extracting,
}

/// What a [`TargetJob`] knows.
#[verifier::ext_equal]
pub struct JobState<H> {
    /// Where the job stands.
    pub phase: JobPhase,
    /// The holders of the neighborhood, once they are acquired.
    pub holders: Map<(i32, i32), Arc<H>>,
    /// The passes that were claimed, in order.
    pub due: Seq<PassRun>,
    /// How many of them have run.
    pub passes_run: nat,
}

/// The holders of a neighborhood by position.
pub open spec fn holders_by_position<H>(entries: Seq<((i32, i32), Arc<H>)>) -> Map<
    (i32, i32),
    Arc<H>,
>
    decreases entries.len(),
{
    if entries.len() == 0 {
        Map::empty()
    } else {
        holders_by_position(entries.drop_last()).insert(entries.last().0, entries.last().1)
    }
}

impl<H> JobState<H> {
    /// A job that has not begun.
    pub open spec fn initial() -> Self {
        JobState {
            phase: JobPhase::Starting,
            holders: Map::empty(),
            due: Seq::empty(),
            passes_run: 0,
        }
    }

    /// Passes are counted only while they run.
    pub open spec fn wf(self) -> bool {
        &&& self.passes_run <= self.due.len()
        &&& self.phase == JobPhase::Decorating ==> self.passes_run < self.due.len()
    }

    /// The event reports what the job asked for last.
    pub open spec fn accepts(self, event: JobEvent<H>) -> bool {
        match event {
            JobEvent::Started { crowded: _ } => self.phase == JobPhase::Starting,
            JobEvent::Evicted => self.phase == JobPhase::Evicting,
            JobEvent::Acquired(_) => self.phase == JobPhase::Acquiring,
            JobEvent::Carved => self.phase == JobPhase::Carving,
            JobEvent::Claimed(_) => self.phase == JobPhase::Claiming,
            JobEvent::PassRun => self.phase == JobPhase::Decorating,
        }
    }

    /// The state in which passes `due` are claimed and `passes_run` of them have
    /// run.
    pub open spec fn decorated(self, due: Seq<PassRun>, passes_run: nat) -> Self {
        JobState {
            phase: if passes_run < due.len() {
                JobPhase::Decorating
            } else {
                JobPhase::Extracting
            },
            holders: self.holders,
            due,
            passes_run,
        }
    }

    /// The state after an event.
    pub open spec fn after(self, event: JobEvent<H>) -> Self {
        match event {
            JobEvent::Started { crowded } => JobState {
                phase: if crowded {
                    JobPhase::Evicting
                } else {
                    JobPhase::Acquiring
                },
                ..self
            },
            JobEvent::Evicted => JobState { phase: JobPhase::Acquiring, ..self },
            JobEvent::Acquired(entries) => JobState {
                phase: JobPhase::Carving,
                holders: holders_by_position(entries@),
                ..self
            },
            JobEvent::Carved => JobState { phase: JobPhase::Claiming, ..self },
            JobEvent::Claimed(due) => self.decorated(runs_of(due@), 0),
            JobEvent::PassRun => self.decorated(self.due, self.passes_run + 1),
        }
    }

    /// The run that the job asks for may not write to the chunk at `pos`, which
    /// is within its reach: the chunk holds the writes of the pass already.
    pub open spec fn stood_in(self, pos: (i32, i32)) -> bool {
        let run = self.due[self.passes_run as int];
        &&& self.phase == JobPhase::Decorating
        &&& in_area(run.center.0, run.center.1, WRITE_RADIUS as int, pos)
        &&& !run.chunks.contains(pos)
    }

    /// What the job asks for in this state.
    pub open spec fn step(self) -> JobStep
        recommends
            self.phase != JobPhase::Starting,
    {
        match self.phase {
            JobPhase::Starting | JobPhase::Evicting => JobStep::Evict,
            JobPhase::Acquiring => JobStep::Acquire,
            JobPhase::Carving => JobStep::Carve,
            JobPhase::Claiming => JobStep::ClaimPasses,
            JobPhase::Decorating => JobStep::RunPass(self.due[self.passes_run as int].center),
            JobPhase::Extracting => JobStep::Extract,
        }
    }
}

/// The generation of one decorated chunk.
pub struct TargetJob<H> {
    phase: JobPhase,
    holders: FxHashMap<(i32, i32), Arc<H>>,
    due: Vec<DuePass>,
    passes_run: usize,
}

impl<H> View for TargetJob<H> {
    type V = JobState<H>;

    closed spec fn view(&self) -> JobState<H> {
        JobState {
            phase: self.phase,
            holders: self.holders@,
            due: runs_of(self.due@),
            passes_run: self.passes_run as nat,
        }
    }
}

impl<H> TargetJob<H> {
    /// A job that has not begun.
    pub fn new() -> (job: Self)
        ensures
            job@ == JobState::<H>::initial(),
            job@.wf(),
    {
        let job = TargetJob {
            phase: JobPhase::Starting,
            holders: FxHashMap::default(),
            due: Vec::new(),
            passes_run: 0,
        };
        assert(job@ =~= JobState::<H>::initial());
        job
    }

    /// Takes in what the caller has done, and says what to do next.
    pub fn next(&mut self, event: JobEvent<H>) -> (step: JobStep)
        requires
            old(self)@.wf(),
            old(self)@.accepts(event),
        ensures
            final(self)@.wf(),
            final(self)@ == old(self)@.after(event),
            step == final(self)@.step(),
    {
        match event {
            JobEvent::Started { crowded } => {
                if crowded {
                    self.phase = JobPhase::Evicting;
                    JobStep::Evict
                } else {
                    self.phase = JobPhase::Acquiring;
                    JobStep::Acquire
                }
            },
            JobEvent::Evicted => {
                self.phase = JobPhase::Acquiring;
                JobStep::Acquire
            },
            JobEvent::Acquired(entries) => {
                self.holders = Self::by_position(&entries);
                self.phase = JobPhase::Carving;
                JobStep::Carve
            },
            JobEvent::Carved => {
                self.phase = JobPhase::Claiming;
                JobStep::ClaimPasses
            },
            JobEvent::Claimed(due) => {
                self.due = due;
                self.passes_run = 0;
                self.next_pass()
            },
            JobEvent::PassRun => {
                assert(self.passes_run < self.due.len());
                self.passes_run = self.passes_run + 1;
                self.next_pass()
            },
        }
    }

    /// Asks for the next pass, or for the target where all have run.
    fn next_pass(&mut self) -> (step: JobStep)
        requires
            old(self)@.passes_run <= old(self)@.due.len(),
        ensures
            final(self)@ == old(self)@.decorated(old(self)@.due, old(self)@.passes_run),
            step == final(self)@.step(),
    {
        if self.passes_run < self.due.len() {
            self.phase = JobPhase::Decorating;
            JobStep::RunPass(self.due[self.passes_run].center)
        } else {
            self.phase = JobPhase::Extracting;
            JobStep::Extract
        }
    }

    /// A lookup table for the holders of a neighborhood.
    fn by_position(entries: &Vec<((i32, i32), Arc<H>)>) -> (holders: FxHashMap<(i32, i32), Arc<H>>)
        ensures
            holders@ == holders_by_position(entries@),
    {
        let mut holders: FxHashMap<(i32, i32), Arc<H>> = FxHashMap::default();
        let mut i: usize = 0;
        while i < entries.len()
            invariant
                i <= entries@.len(),
                holders@ == holders_by_position(entries@.take(i as int)),
            decreases entries@.len() - i,
        {
            assert(entries@.take(i + 1).drop_last() =~= entries@.take(i as int));
            map_insert(&mut holders, entries[i].0, Arc::clone(&entries[i].1));
            i = i + 1;
        }
        assert(entries@.take(i as int) =~= entries@);
        holders
    }

    /// The holder of a chunk of the neighborhood.
    pub fn holder(&self, x: i32, z: i32) -> (found: Option<Arc<H>>)
        ensures
            found == if self@.holders.contains_key((x, z)) {
                Some(self@.holders[(x, z)])
            } else {
                None
            },
    {
        match map_get(&self.holders, (x, z)) {
            Some(holder) => Some(Arc::clone(holder)),
            None => None,
        }
    }

    /// Whether the pass that the job asks for has to see a stand-in for a chunk,
    /// which is discarded after the pass: the chunk is within the reach of the
    /// pass and holds its writes already.
    pub fn needs_stand_in(&self, x: i32, z: i32) -> (needed: bool)
        requires
            self@.wf(),
        ensures
            needed == self@.stood_in((x, z)),
    {
        match self.phase {
            JobPhase::Decorating => {
                let pass = &self.due[self.passes_run];
                assert(self@.due[self@.passes_run as int] == pass@);
                within(pass.center.0, x, WRITE_RADIUS) && within(pass.center.1, z, WRITE_RADIUS)
                    && !lists(&pass.chunks, (x, z))
            },
            _ => false,
        }
    }
}

/// Two coordinates are no further apart than `distance`.
fn within(one: i32, other: i32, distance: i32) -> (near: bool)
    requires
        distance >= 0,
    ensures
        near == (one - distance <= other <= one + distance),
{
    one as i64 - distance as i64 <= other as i64 && other as i64 <= one as i64 + distance as i64
}

/// A list of positions holds `pos`.
fn lists(positions: &Vec<(i32, i32)>, pos: (i32, i32)) -> (found: bool)
    ensures
        found == positions@.contains(pos),
{
    let mut i: usize = 0;
    while i < positions.len()
        invariant
            i <= positions@.len(),
            forall|j: int| 0 <= j < i ==> positions@[j] != pos,
        decreases positions@.len() - i,
    {
        if positions[i].0 == pos.0 && positions[i].1 == pos.1 {
            assert(positions@[i as int] == pos);
            return true;
        }
        i = i + 1;
    }
    false
}

/// Each event of a series reports what the job asked for, from the beginning.
pub open spec fn reported<H>(events: Seq<JobEvent<H>>) -> bool
    decreases events.len(),
{
    events.len() > 0 ==> reported(events.drop_last()) && job_after(events.drop_last()).accepts(
        events.last(),
    )
}

/// The state of a job after a series of events.
pub open spec fn job_after<H>(events: Seq<JobEvent<H>>) -> JobState<H>
    decreases events.len(),
{
    if events.len() == 0 {
        JobState::initial()
    } else {
        job_after(events.drop_last()).after(events.last())
    }
}

/// What a job asked for, event by event.
pub open spec fn steps_of<H>(events: Seq<JobEvent<H>>) -> Seq<JobStep>
    decreases events.len(),
{
    if events.len() == 0 {
        Seq::empty()
    } else {
        steps_of(events.drop_last()).push(job_after(events).step())
    }
}

/// All steps of a job: an eviction where there are too many holders; then
/// acquire, carve and claim; then the claimed passes in order; then the target.
pub open spec fn job_plan(crowded: bool, due: Seq<PassRun>) -> Seq<JobStep> {
    let opening = if crowded {
        seq![JobStep::Evict, JobStep::Acquire, JobStep::Carve, JobStep::ClaimPasses]
    } else {
        seq![JobStep::Acquire, JobStep::Carve, JobStep::ClaimPasses]
    };
    opening + due.map_values(|run: PassRun| JobStep::RunPass(run.center)) + seq![JobStep::Extract]
}

/// The number of steps of a job before the first pass.
pub open spec fn opening_len(crowded: bool) -> nat {
    if crowded {
        4
    } else {
        3
    }
}

/// The first event of a job said that there are too many holders.
pub open spec fn began_crowded<H>(events: Seq<JobEvent<H>>) -> bool {
    events.len() > 0 && events[0] == (JobEvent::<H>::Started { crowded: true })
}

/// However a job goes, it follows the plan: after any series of events it has
/// asked for the first steps of the plan, as many as there were events. So every
/// chunk is carved before a pass runs, the claimed passes run in the order in
/// which they were claimed, each once, and the target is taken out only after
/// all of them.
pub proof fn lemma_job_follows_the_plan<H>(events: Seq<JobEvent<H>>)
    requires
        reported(events),
    ensures
        job_after(events).wf(),
        events.len() <= job_plan(began_crowded(events), job_after(events).due).len(),
        steps_of(events) == job_plan(began_crowded(events), job_after(events).due).take(
            events.len() as int,
        ),
        job_after(events).phase == JobPhase::Extracting <==> events.len() == job_plan(
            began_crowded(events),
            job_after(events).due,
        ).len(),
    decreases events.len(),
{
    lemma_job_position(events);
}

/// [`lemma_job_follows_the_plan`], with the number of events tied to the phase.
proof fn lemma_job_position<H>(events: Seq<JobEvent<H>>)
    requires
        reported(events),
    ensures
        ({
            let crowded = began_crowded(events);
            let state = job_after(events);
            let opening = opening_len(crowded);
            let n = events.len();
            &&& state.wf()
            &&& steps_of(events) == job_plan(crowded, state.due).take(n as int)
            &&& match state.phase {
                JobPhase::Starting => n == 0,
                JobPhase::Evicting => crowded && n == 1,
                JobPhase::Acquiring => n == opening - 2 && n > 0,
                JobPhase::Carving => n == opening - 1,
                JobPhase::Claiming => n == opening,
                JobPhase::Decorating => n == opening + 1 + state.passes_run,
                JobPhase::Extracting => n == opening + 1 + state.due.len() && state.passes_run
                    == state.due.len(),
            }
            &&& state.phase != JobPhase::Decorating && state.phase != JobPhase::Extracting
                ==> state.due.len() == 0 && state.passes_run == 0
        }),
    decreases events.len(),
{
    let crowded = began_crowded(events);
    let state = job_after(events);
    let plan = job_plan(crowded, state.due);
    if events.len() == 0 {
        assert(steps_of(events) =~= plan.take(0));
    } else {
        let earlier = events.drop_last();
        lemma_job_position(earlier);
        let before = job_after(earlier);
        let earlier_plan = job_plan(began_crowded(earlier), before.due);
        if earlier.len() > 0 {
            assert(earlier[0] == events[0]);
        }
        assert(plan.take(earlier.len() as int) =~= earlier_plan.take(earlier.len() as int));
        assert(plan[earlier.len() as int] == state.step());
        assert(plan.take(events.len() as int) =~= plan.take(earlier.len() as int).push(
            state.step(),
        ));
    }
}

/// What [`holders_by_position`] holds where no position occurs twice.
proof fn lemma_holders_by_position<H>(entries: Seq<((i32, i32), Arc<H>)>)
    requires
        forall|i: int, j: int|
            0 <= i < j < entries.len() ==> (#[trigger] entries[i]).0 != (#[trigger] entries[j]).0,
    ensures
        forall|i: int|
            0 <= i < entries.len() ==> {
                &&& holders_by_position(entries).contains_key((#[trigger] entries[i]).0)
                &&& holders_by_position(entries)[entries[i].0] == entries[i].1
            },
        forall|pos: (i32, i32)| #[trigger]
            holders_by_position(entries).contains_key(pos) ==> exists|i: int|
                0 <= i < entries.len() && (#[trigger] entries[i]).0 == pos,
    decreases entries.len(),
{
    if entries.len() > 0 {
        let earlier = entries.drop_last();
        lemma_holders_by_position(earlier);
        assert forall|i: int| 0 <= i < entries.len() implies {
            &&& holders_by_position(entries).contains_key((#[trigger] entries[i]).0)
            &&& holders_by_position(entries)[entries[i].0] == entries[i].1
        } by {
            if i < earlier.len() {
                assert(earlier[i] == entries[i]);
            }
        }
        assert forall|pos: (i32, i32)| #[trigger]
            holders_by_position(entries).contains_key(pos) implies exists|i: int|
                0 <= i < entries.len() && (#[trigger] entries[i]).0 == pos by {
            if pos != entries.last().0 {
                assert(holders_by_position(earlier).contains_key(pos));
                let i = choose|i: int| 0 <= i < earlier.len() && (#[trigger] earlier[i]).0 == pos;
                assert(entries[i].0 == pos);
            } else {
                assert(entries[entries.len() - 1].0 == pos);
            }
        }
    }
}

/// A job that was given the holders of the neighborhood of its target finds the
/// holder of every chunk within [`FEATURE_RADIUS`], and of no other: it is the
/// holder in the cache.
pub proof fn lemma_job_finds_the_neighborhood<H, M>(
    state: JobState<H>,
    cache: HolderState<Arc<H>, Arc<M>>,
    chunk_x: i32,
    chunk_z: i32,
    entries: Vec<((i32, i32), Arc<H>)>,
)
    requires
        area_fits(chunk_x, chunk_z, FEATURE_RADIUS as int),
        entries@.len() == area(chunk_x, chunk_z, FEATURE_RADIUS as int).len(),
        forall|i: int|
            #![trigger entries@[i]]
            0 <= i < entries@.len() ==> {
                let pos = area(chunk_x, chunk_z, FEATURE_RADIUS as int)[i];
                entries@[i] == (pos, cache.holders[pos])
            },
    ensures
        forall|pos: (i32, i32)| #[trigger]
            state.after(JobEvent::Acquired(entries)).holders.contains_key(pos) <==> in_area(
                chunk_x,
                chunk_z,
                FEATURE_RADIUS as int,
                pos,
            ),
        forall|pos: (i32, i32)|
            in_area(chunk_x, chunk_z, FEATURE_RADIUS as int, pos) ==> #[trigger] state.after(
                JobEvent::Acquired(entries),
            ).holders[pos] == cache.holders[pos],
{
    let positions = area(chunk_x, chunk_z, FEATURE_RADIUS as int);
    lemma_area_is_the_square(chunk_x, chunk_z, FEATURE_RADIUS as int);
    lemma_holders_by_position(entries@);
    let holders = holders_by_position(entries@);
    assert forall|pos: (i32, i32)| in_area(chunk_x, chunk_z, FEATURE_RADIUS as int, pos) implies {
        &&& #[trigger] holders.contains_key(pos)
        &&& holders[pos] == cache.holders[pos]
    } by {
        assert(positions.contains(pos));
        let i = choose|i: int| 0 <= i < positions.len() && positions[i] == pos;
        assert(entries@[i].0 == pos);
    }
    assert forall|pos: (i32, i32)| #[trigger] holders.contains_key(pos) implies in_area(
        chunk_x,
        chunk_z,
        FEATURE_RADIUS as int,
        pos,
    ) by {
        let i = choose|i: int| 0 <= i < entries@.len() && (#[trigger] entries@[i]).0 == pos;
        assert(positions[i] == pos);
        assert(positions.contains(pos));
    }
    assert(state.after(JobEvent::Acquired(entries)).holders == holders);
    assert forall|pos: (i32, i32)|
        in_area(chunk_x, chunk_z, FEATURE_RADIUS as int, pos) implies #[trigger] state.after(
        JobEvent::Acquired(entries),
    ).holders[pos] == cache.holders[pos] by {
        assert(holders.contains_key(pos));
    }
}

/// A job that was given the holders of the neighborhood of its target finds the
/// holder of the target and of the center of every pass that it has to run.
pub proof fn lemma_job_finds_target_and_passes<H, M>(
    state: JobState<H>,
    cache: HolderState<Arc<H>, Arc<M>>,
    chunk_x: i32,
    chunk_z: i32,
    entries: Vec<((i32, i32), Arc<H>)>,
    written: Set<PassWrite>,
)
    requires
        area_fits(chunk_x, chunk_z, FEATURE_RADIUS as int),
        entries@.len() == area(chunk_x, chunk_z, FEATURE_RADIUS as int).len(),
        forall|i: int|
            #![trigger entries@[i]]
            0 <= i < entries@.len() ==> {
                let pos = area(chunk_x, chunk_z, FEATURE_RADIUS as int)[i];
                entries@[i] == (pos, cache.holders[pos])
            },
    ensures
        state.after(JobEvent::Acquired(entries)).holders.contains_key((chunk_x, chunk_z)),
        forall|pos: (i32, i32)| #[trigger]
            due_passes(written, chunk_x, chunk_z).contains(pos) ==> state.after(
                JobEvent::Acquired(entries),
            ).holders.contains_key(pos),
{
    lemma_job_finds_the_neighborhood(state, cache, chunk_x, chunk_z, entries);
    lemma_due_passes(written, chunk_x, chunk_z);
}

/// A pass sees a stand-in for exactly those chunks within its reach that it has
/// written to before: a run that is due writes to the others only.
pub proof fn lemma_stand_ins_keep_what_was_written<H>(
    state: JobState<H>,
    written: Set<PassWrite>,
    chunk_x: i32,
    chunk_z: i32,
    pos: (i32, i32),
)
    requires
        state.wf(),
        state.phase == JobPhase::Decorating,
        state.due == runs_due(written, chunk_x, chunk_z),
        passes_fit(chunk_x, chunk_z),
    ensures
        ({
            let center = state.due[state.passes_run as int].center;
            state.stood_in(pos) <==> in_area(center.0, center.1, WRITE_RADIUS as int, pos)
                && written.contains(PassWrite { center, chunk: pos })
        }),
{
    let due = due_passes(written, chunk_x, chunk_z);
    let center = due[state.passes_run as int];
    lemma_due_passes(written, chunk_x, chunk_z);
    assert(due.contains(center));
    lemma_chunks_due(written, center);
    assert(state.due[state.passes_run as int].chunks == chunks_due(written, center));
}

/// A second call for the same target runs no pass where the holder of the target
/// stayed, whatever else was evicted between the claims: after the claim it takes
/// the target out.
pub proof fn lemma_repeated_target_runs_no_pass(
    written: Set<PassWrite>,
    gone: Seq<(i32, i32)>,
    chunk_x: i32,
    chunk_z: i32,
    crowded: bool,
)
    requires
        passes_fit(chunk_x, chunk_z),
        !gone.contains((chunk_x, chunk_z)),
    ensures
        job_plan(
            crowded,
            runs_due(
                written_kept(written_after(written, chunk_x, chunk_z), Some(gone)),
                chunk_x,
                chunk_z,
            ),
        ) == job_plan(crowded, Seq::empty()),
{
    lemma_claiming_again_is_empty(written, gone, chunk_x, chunk_z);
    let kept = written_kept(written_after(written, chunk_x, chunk_z), Some(gone));
    assert(runs_due(kept, chunk_x, chunk_z) =~= Seq::empty());
}

/// A target that was evicted is decorated in full by the call that evicts it,
/// whether or not chunks around it were evicted too: that call runs all nine
/// passes.
pub proof fn lemma_evicted_target_is_decorated_again<H, M>(
    cache: HolderState<H, M>,
    written: Set<PassWrite>,
    chunk_x: i32,
    chunk_z: i32,
)
    requires
        cache.wf(),
        area_fits(chunk_x, chunk_z, PASS_RADIUS as int),
        cache.holders.contains_key((chunk_x, chunk_z)),
        !cache.evicted().holders.contains_key((chunk_x, chunk_z)),
    ensures
        due_passes(written_kept(written, cache.leaving()), chunk_x, chunk_z) == area(
            chunk_x,
            chunk_z,
            PASS_RADIUS as int,
        ),
        job_plan(true, runs_due(written_kept(written, cache.leaving()), chunk_x, chunk_z)) == seq![
            JobStep::Evict,
            JobStep::Acquire,
            JobStep::Carve,
            JobStep::ClaimPasses,
        ] + area(chunk_x, chunk_z, PASS_RADIUS as int).map_values(
            |pos: (i32, i32)| JobStep::RunPass(pos),
        ) + seq![JobStep::Extract],
{
    cache.lemma_leaving_positions();
    let gone = cache.leaving()->0;
    assert(gone.to_set().contains((chunk_x, chunk_z)));
    lemma_evicted_target_needs_all_passes(written, gone, chunk_x, chunk_z);
    let runs = runs_due(written_kept(written, cache.leaving()), chunk_x, chunk_z);
    assert(runs.map_values(|run: PassRun| JobStep::RunPass(run.center)) =~= area(
        chunk_x,
        chunk_z,
        PASS_RADIUS as int,
    ).map_values(|pos: (i32, i32)| JobStep::RunPass(pos)));
}

/// What a job keeps of the events that were reported to it: the holders and the
/// passes, unchanged.
proof fn lemma_job_keeps_what_was_reported<H>(events: Seq<JobEvent<H>>, c: int)
    requires
        reported(events),
        0 <= c < events.len(),
    ensures
        match events[c] {
            JobEvent::Claimed(due) => {
                &&& c == opening_len(began_crowded(events))
                &&& job_after(events).due == runs_of(due@)
                &&& job_after(events).passes_run == events.len() - c - 1
                &&& job_after(events).phase == if events.len() - c - 1 < due@.len() {
                    JobPhase::Decorating
                } else {
                    JobPhase::Extracting
                }
            },
            JobEvent::Acquired(entries) => {
                &&& job_after(events).holders == holders_by_position(entries@)
                &&& job_after(events).phase != JobPhase::Starting
                &&& job_after(events).phase != JobPhase::Evicting
                &&& job_after(events).phase != JobPhase::Acquiring
            },
            _ => true,
        },
    decreases events.len(),
{
    let earlier = events.drop_last();
    lemma_job_position(events);
    lemma_job_position(earlier);
    if earlier.len() > 0 {
        assert(earlier[0] == events[0]);
    }
    if c < earlier.len() {
        lemma_job_keeps_what_was_reported(earlier, c);
        assert(earlier[c] == events[c]);
    }
}

/// [`steps_of`] has one step per event: what the job asked for after the events
/// up to and including that one.
proof fn lemma_step_per_event<H>(events: Seq<JobEvent<H>>, k: int)
    requires
        reported(events),
        0 <= k < events.len(),
    ensures
        steps_of(events).len() == events.len(),
        reported(events.take(k + 1)),
        steps_of(events)[k] == job_after(events.take(k + 1)).step(),
    decreases events.len(),
{
    let earlier = events.drop_last();
    if k < earlier.len() {
        lemma_step_per_event(earlier, k);
        assert(earlier.take(k + 1) =~= events.take(k + 1));
    } else {
        assert(events.take(k + 1) =~= events);
        if earlier.len() > 0 {
            lemma_step_per_event(earlier, 0);
        }
    }
}

/// A job runs what was claimed. Where passes were reported as claimed, the job has
/// asked before for nothing but to evict, where it began crowded, to acquire, to
/// carve and to claim, in this order. From then on it asks for the claimed passes,
/// one after the other in the order of the report, every one of them, and for the
/// target only after the last.
pub proof fn lemma_job_runs_what_was_claimed<H>(
    events: Seq<JobEvent<H>>,
    c: int,
    due: Vec<DuePass>,
)
    requires
        reported(events),
        0 <= c < events.len(),
        events[c] == JobEvent::<H>::Claimed(due),
    ensures
        steps_of(events).len() == events.len(),
        events.len() <= c + due@.len() + 1,
        steps_of(events).take(c) == if events[0] == (JobEvent::<H>::Started { crowded: true }) {
            seq![JobStep::Evict, JobStep::Acquire, JobStep::Carve, JobStep::ClaimPasses]
        } else {
            seq![JobStep::Acquire, JobStep::Carve, JobStep::ClaimPasses]
        },
        forall|i: int|
            0 <= i < due@.len() && c + i < events.len() ==> #[trigger] steps_of(events)[c + i]
                == JobStep::RunPass(due@[i].center),
        forall|k: int|
            0 <= k < events.len() ==> (#[trigger] steps_of(events)[k] == JobStep::Extract <==> k == c
                + due@.len()),
        steps_of(events) == job_plan(began_crowded(events), runs_of(due@)).take(
            events.len() as int,
        ),
{
    let crowded = began_crowded(events);
    let plan = job_plan(crowded, runs_of(due@));
    lemma_job_keeps_what_was_reported(events, c);
    lemma_job_follows_the_plan(events);
    lemma_step_per_event(events, c);
    assert forall|i: int| 0 <= i < due@.len() implies #[trigger] plan[c + i] == JobStep::RunPass(
        due@[i].center,
    ) by {
        lemma_runs_are_the_passes(due@, i);
    }
    assert(steps_of(events).take(c) =~= plan.take(c));
    assert(plan.take(c) =~= if crowded {
        seq![JobStep::Evict, JobStep::Acquire, JobStep::Carve, JobStep::ClaimPasses]
    } else {
        seq![JobStep::Acquire, JobStep::Carve, JobStep::ClaimPasses]
    });
    assert forall|k: int| 0 <= k < events.len() implies (#[trigger] steps_of(events)[k]
        == JobStep::Extract <==> k == c + due@.len()) by {
        assert(steps_of(events)[k] == plan[k]);
        if c <= k < c + due@.len() {
            assert(plan[c + (k - c)] == JobStep::RunPass(due@[k - c].center));
        }
    }
}

/// Until passes are claimed, a job asks in this order: to evict, where it began
/// crowded, to acquire, to carve, and to claim.
pub proof fn lemma_job_opens_in_order<H>(events: Seq<JobEvent<H>>)
    requires
        reported(events),
        events.len() > 0,
        forall|k: int| 0 <= k < events.len() ==> !((#[trigger] events[k]) is Claimed),
    ensures
        ({
            let opening = if events[0] == (JobEvent::<H>::Started { crowded: true }) {
                seq![JobStep::Evict, JobStep::Acquire, JobStep::Carve, JobStep::ClaimPasses]
            } else {
                seq![JobStep::Acquire, JobStep::Carve, JobStep::ClaimPasses]
            };
            &&& events.len() <= opening.len()
            &&& steps_of(events) == opening.take(events.len() as int)
        }),
{
    let crowded = began_crowded(events);
    let opening = if crowded {
        seq![JobStep::Evict, JobStep::Acquire, JobStep::Carve, JobStep::ClaimPasses]
    } else {
        seq![JobStep::Acquire, JobStep::Carve, JobStep::ClaimPasses]
    };
    lemma_unclaimed_job_is_opening(events);
    lemma_job_position(events);
    lemma_job_follows_the_plan(events);
    let plan = job_plan(crowded, job_after(events).due);
    assert(plan.take(events.len() as int) =~= opening.take(events.len() as int));
}

/// A job to which no passes were reported as claimed runs none.
proof fn lemma_unclaimed_job_is_opening<H>(events: Seq<JobEvent<H>>)
    requires
        reported(events),
        forall|k: int| 0 <= k < events.len() ==> !((#[trigger] events[k]) is Claimed),
    ensures
        job_after(events).phase != JobPhase::Decorating,
        job_after(events).phase != JobPhase::Extracting,
    decreases events.len(),
{
    if events.len() > 0 {
        let earlier = events.drop_last();
        assert forall|k: int| 0 <= k < earlier.len() implies !((#[trigger] earlier[k]) is Claimed) by {
            assert(earlier[k] == events[k]);
        }
        lemma_unclaimed_job_is_opening(earlier);
        assert(!(events[events.len() - 1] is Claimed));
    }
}

/// The first request for a chunk that no pass has written to runs the passes of
/// all nine chunks around and including it, column by column, and takes the chunk
/// out after the ninth.
pub proof fn lemma_bare_target_runs_all_nine<H>(
    events: Seq<JobEvent<H>>,
    c: int,
    due: Vec<DuePass>,
    written: Set<PassWrite>,
    chunk_x: i32,
    chunk_z: i32,
)
    requires
        reported(events),
        0 <= c < events.len(),
        events[c] == JobEvent::<H>::Claimed(due),
        runs_of(due@) == runs_due(written, chunk_x, chunk_z),
        i32::MIN + 2 <= chunk_x <= i32::MAX - 2,
        i32::MIN + 2 <= chunk_z <= i32::MAX - 2,
        forall|write: PassWrite| #[trigger]
            written.contains(write) ==> write.chunk != (chunk_x, chunk_z),
    ensures
        events.len() <= c + 10,
        forall|a: int, b: int|
            0 <= a < 3 && 0 <= b < 3 && c + 3 * a + b < events.len() ==> #[trigger] steps_of(
                events,
            )[c + 3 * a + b] == JobStep::RunPass(
                ((chunk_x - 1 + a) as i32, (chunk_z - 1 + b) as i32),
            ),
        events.len() == c + 10 ==> steps_of(events).last() == JobStep::Extract,
        forall|k: int|
            0 <= k < c + 9 && k < events.len() ==> #[trigger] steps_of(events)[k]
                != JobStep::Extract,
{
    lemma_job_runs_what_was_claimed(events, c, due);
    lemma_bare_target_needs_all_passes(written, chunk_x, chunk_z);
    let runs = runs_due(written, chunk_x, chunk_z);
    let nine = area(chunk_x, chunk_z, PASS_RADIUS as int);
    lemma_passes_in_order(chunk_x, chunk_z, 0, 0);
    assert(runs.len() == 9);
    assert(runs_of(due@).len() == due@.len());
    assert forall|a: int, b: int|
        0 <= a < 3 && 0 <= b < 3 && c + 3 * a + b < events.len() implies #[trigger] steps_of(
        events,
    )[c + 3 * a + b] == JobStep::RunPass(
        ((chunk_x - 1 + a) as i32, (chunk_z - 1 + b) as i32),
    ) by {
        let i = 3 * a + b;
        lemma_passes_in_order(chunk_x, chunk_z, a, b);
        lemma_runs_are_the_passes(due@, i);
        assert(runs[i].center == nine[i]);
        assert(steps_of(events)[c + i] == JobStep::RunPass(due@[i].center));
    }
}

/// A job takes the report of what it asked for, whatever the report holds, so it
/// never gets stuck before the target; and it can begin either way.
pub proof fn lemma_job_takes_the_report<H>(
    events: Seq<JobEvent<H>>,
    entries: Vec<((i32, i32), Arc<H>)>,
    due: Vec<DuePass>,
    crowded: bool,
)
    requires
        reported(events),
    ensures
        events.len() == 0 ==> job_after(events).accepts(JobEvent::Started { crowded }),
        events.len() > 0 ==> match steps_of(events).last() {
            JobStep::Evict => job_after(events).accepts(JobEvent::Evicted),
            JobStep::Acquire => job_after(events).accepts(JobEvent::Acquired(entries)),
            JobStep::Carve => job_after(events).accepts(JobEvent::Carved),
            JobStep::ClaimPasses => job_after(events).accepts(JobEvent::Claimed(due)),
            JobStep::RunPass(_) => job_after(events).accepts(JobEvent::PassRun),
            JobStep::Extract => true,
        },
{
    lemma_job_position(events);
}

/// `entries` holds this holder at this position, and no later entry is for the
/// same position.
pub open spec fn last_entry_is<H>(
    entries: Seq<((i32, i32), Arc<H>)>,
    pos: (i32, i32),
    holder: Arc<H>,
) -> bool {
    exists|i: int|
        0 <= i < entries.len() && (#[trigger] entries[i]) == (pos, holder) && forall|j: int|
            i < j < entries.len() ==> (#[trigger] entries[j]).0 != pos
}

/// A table of holders has a holder exactly for the positions that are listed, and
/// for each of them the one that is listed last.
proof fn lemma_table_of_holders<H>(entries: Seq<((i32, i32), Arc<H>)>, pos: (i32, i32))
    ensures
        holders_by_position(entries).contains_key(pos) <==> exists|i: int|
            0 <= i < entries.len() && (#[trigger] entries[i]).0 == pos,
        holders_by_position(entries).contains_key(pos) ==> last_entry_is(
            entries,
            pos,
            holders_by_position(entries)[pos],
        ),
    decreases entries.len(),
{
    if entries.len() > 0 {
        let earlier = entries.drop_last();
        let last = entries.len() - 1;
        lemma_table_of_holders(earlier, pos);
        if entries[last].0 == pos {
            assert(entries[last] == (pos, holders_by_position(entries)[pos]));
        } else {
            if exists|i: int| 0 <= i < entries.len() && (#[trigger] entries[i]).0 == pos {
                let i = choose|i: int| 0 <= i < entries.len() && (#[trigger] entries[i]).0 == pos;
                assert(earlier[i].0 == pos);
            }
            if holders_by_position(earlier).contains_key(pos) {
                let holder = holders_by_position(earlier)[pos];
                let i = choose|i: int|
                    0 <= i < earlier.len() && (#[trigger] earlier[i]) == (pos, holder) && forall|
                        j: int,
                    |
                        i < j < earlier.len() ==> (#[trigger] earlier[j]).0 != pos;
                assert(entries[i] == (pos, holder));
                assert forall|j: int| i < j < entries.len() implies (#[trigger] entries[j]).0
                    != pos by {
                    if j < last {
                        assert(earlier[j].0 != pos);
                    }
                }
            }
        }
    }
}

/// A job finds what was acquired, from the report of it to the end: it has a holder
/// exactly for the positions in the report, and for each of them the one that the
/// report lists last.
pub proof fn lemma_job_finds_what_was_acquired<H>(
    events: Seq<JobEvent<H>>,
    c: int,
    entries: Vec<((i32, i32), Arc<H>)>,
    pos: (i32, i32),
)
    requires
        reported(events),
        0 <= c < events.len(),
        events[c] == JobEvent::<H>::Acquired(entries),
    ensures
        job_after(events).holders.contains_key(pos) <==> exists|i: int|
            0 <= i < entries@.len() && (#[trigger] entries@[i]).0 == pos,
        job_after(events).holders.contains_key(pos) ==> last_entry_is(
            entries@,
            pos,
            job_after(events).holders[pos],
        ),
{
    lemma_job_keeps_what_was_reported(events, c);
    lemma_table_of_holders(entries@, pos);
}

/// While the claimed pass `i` runs, a stand-in is shown exactly for the chunks that
/// are its center or touch it and that the report does not list for it. Before the
/// first pass and after the last none is.
pub proof fn lemma_stand_ins_by_distance<H>(
    events: Seq<JobEvent<H>>,
    c: int,
    due: Vec<DuePass>,
    pos: (i32, i32),
)
    requires
        reported(events),
        0 <= c < events.len(),
        events[c] == JobEvent::<H>::Claimed(due),
    ensures
        job_after(events).stood_in(pos) <==> ({
            let i = events.len() - c - 1;
            &&& i < due@.len()
            &&& -1 <= pos.0 - due@[i].center.0 <= 1
            &&& -1 <= pos.1 - due@[i].center.1 <= 1
            &&& !due@[i].chunks@.contains(pos)
        }),
        !job_after(events.take(c)).stood_in(pos),
{
    lemma_job_keeps_what_was_reported(events, c);
    let i = events.len() - c - 1;
    if i < due@.len() {
        lemma_runs_are_the_passes(due@, i);
    }
    lemma_step_per_event(events, c);
    let upto = events.take(c + 1);
    assert(upto.drop_last() =~= events.take(c));
    assert(upto.last() == events[c]);
}

/// A job knows nothing that was not reported: no holder before holders were
/// acquired, and no stand-in before passes were claimed.
pub proof fn lemma_job_knows_only_what_was_reported<H>(
    events: Seq<JobEvent<H>>,
    pos: (i32, i32),
)
    requires
        reported(events),
    ensures
        (forall|k: int| 0 <= k < events.len() ==> !((#[trigger] events[k]) is Acquired))
            ==> !job_after(events).holders.contains_key(pos),
        (forall|k: int| 0 <= k < events.len() ==> !((#[trigger] events[k]) is Claimed))
            ==> !job_after(events).stood_in(pos),
    decreases events.len(),
{
    if forall|k: int| 0 <= k < events.len() ==> !((#[trigger] events[k]) is Claimed) {
        lemma_unclaimed_job_is_opening(events);
    }
    if events.len() > 0 {
        let earlier = events.drop_last();
        lemma_job_knows_only_what_was_reported(earlier, pos);
        if forall|k: int| 0 <= k < events.len() ==> !((#[trigger] events[k]) is Acquired) {
            assert forall|k: int| 0 <= k < earlier.len() implies !((
            #[trigger] earlier[k]) is Acquired) by {
                assert(earlier[k] == events[k]);
            }
            assert(!(events[events.len() - 1] is Acquired));
        }
    }
}

} // verus!
