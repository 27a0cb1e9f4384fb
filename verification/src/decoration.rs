//! Which decoration passes have written to which chunks.
//!
//! Each chunk has one decoration pass, which writes to the chunk and to its
//! neighbors. A chunk is decorated in full once the passes of the nine chunks
//! around and including it have written to it, each exactly once.
//!
//! A pass runs once and writes to all nine chunks then, as long as no holder
//! leaves. When a holder leaves, the chunk in it is lost together with what was
//! written to it. A chunk that is generated anew at that position needs all nine
//! passes again, but the chunks that stayed do not. So a pass that runs again
//! writes to the chunks that lack its writes and to no others.
use rustc_hash::{FxHashMap, FxHashSet};
use vstd::prelude::*;

use crate::holders::Evicted;
use crate::neighborhood::{
    area, area_fits, area_positions, comes_before, in_area, lemma_area_ascends,
    lemma_area_is_the_square, lemma_filter_ascends, PASS_RADIUS, WRITE_RADIUS,
};
use crate::position_maps::{map_get, map_insert, map_remove, set_contains, set_insert};

verus! {

/// The pass of the chunk at `center` has written to the chunk at `chunk`.
pub struct PassWrite {
    /// The chunk whose pass it is.
    pub center: (i32, i32),
    /// The chunk that was written to.
    pub chunk: (i32, i32),
}

/// One run of a pass.
#[verifier::ext_equal]
pub struct PassRun {
    /// The chunk whose pass it is.
    pub center: (i32, i32),
    /// The chunks that the run writes to.
    pub chunks: Seq<(i32, i32)>,
}

impl PassRun {
    /// The run makes this write.
    pub open spec fn makes(self, write: PassWrite) -> bool {
        self.center == write.center && self.chunks.contains(write.chunk)
    }
}

/// Some run of a series makes this write.
pub open spec fn some_run_makes(runs: Seq<PassRun>, write: PassWrite) -> bool {
    exists|i: int| 0 <= i < runs.len() && (#[trigger] runs[i]).makes(write)
}

/// No two runs of a series make this write.
pub open spec fn made_at_most_once(runs: Seq<PassRun>, write: PassWrite) -> bool {
    forall|i: int, j: int|
        0 <= i < j < runs.len() && (#[trigger] runs[i]).makes(write) ==> !(#[trigger] runs[j]).makes(
            write,
        )
}

/// All chunks that the passes of a target chunk write to are positions.
pub open spec fn passes_fit(chunk_x: i32, chunk_z: i32) -> bool {
    area_fits(chunk_x, chunk_z, PASS_RADIUS + WRITE_RADIUS)
}

/// The passes that have to run for a target chunk: those of the area around it
/// that have not written to it, in the order of [`area`].
pub open spec fn due_passes(written: Set<PassWrite>, chunk_x: i32, chunk_z: i32) -> Seq<(i32, i32)> {
    area(chunk_x, chunk_z, PASS_RADIUS as int).filter(
        |center: (i32, i32)| !written.contains(PassWrite { center, chunk: (chunk_x, chunk_z) }),
    )
}

/// The chunks that the pass of `center` has to write to when it runs: those
/// within its reach that it has not written to, in the order of [`area`].
pub open spec fn chunks_due(written: Set<PassWrite>, center: (i32, i32)) -> Seq<(i32, i32)> {
    area(center.0, center.1, WRITE_RADIUS as int).filter(
        |chunk: (i32, i32)| !written.contains(PassWrite { center, chunk }),
    )
}

/// The runs that a target chunk needs, in order.
pub open spec fn runs_due(written: Set<PassWrite>, chunk_x: i32, chunk_z: i32) -> Seq<PassRun> {
    due_passes(written, chunk_x, chunk_z).map_values(
        |center: (i32, i32)| PassRun { center, chunks: chunks_due(written, center) },
    )
}

/// The writes there are once the passes in `centers` have written to everything
/// within their reach.
pub open spec fn with_passes(written: Set<PassWrite>, centers: Seq<(i32, i32)>) -> Set<PassWrite> {
    written.union(
        Set::new(
            |write: PassWrite|
                centers.contains(write.center) && in_area(
                    write.center.0,
                    write.center.1,
                    WRITE_RADIUS as int,
                    write.chunk,
                ),
        ),
    )
}

/// The writes there are once the runs that a target chunk needs are done.
pub open spec fn written_after(written: Set<PassWrite>, chunk_x: i32, chunk_z: i32) -> Set<
    PassWrite,
> {
    with_passes(written, due_passes(written, chunk_x, chunk_z))
}

/// The writes that are left after an eviction, of which `gone` says what left:
/// positions, or everything.
pub open spec fn written_kept(written: Set<PassWrite>, gone: Option<Seq<(i32, i32)>>) -> Set<
    PassWrite,
> {
    match gone {
        Some(positions) => Set::new(
            |write: PassWrite| written.contains(write) && !positions.contains(write.chunk),
        ),
        None => Set::empty(),
    }
}

/// The passes of all nine chunks around and including a chunk have written to it.
pub open spec fn is_decorated(written: Set<PassWrite>, chunk: (i32, i32)) -> bool {
    forall|center: (i32, i32)|
        in_area(chunk.0, chunk.1, WRITE_RADIUS as int, center) ==> #[trigger] written.contains(
            PassWrite { center, chunk },
        )
}

/// A pass to run.
#[derive(Debug, PartialEq, Eq)]
pub struct DuePass {
    /// The chunk whose pass it is.
    pub center: (i32, i32),
    /// The chunks to write to.
    pub chunks: Vec<(i32, i32)>,
}

impl View for DuePass {
    type V = PassRun;

    open spec fn view(&self) -> PassRun {
        PassRun { center: self.center, chunks: self.chunks@ }
    }
}

/// The runs that a list of passes stands for.
pub open spec fn runs_of(due: Seq<DuePass>) -> Seq<PassRun> {
    due.map_values(|pass: DuePass| pass@)
}

/// The passes that have written to the chunks there are.
pub struct DecorationPasses {
    /// The centers of the passes that have written to each chunk.
    by_chunk: FxHashMap<(i32, i32), FxHashSet<(i32, i32)>>,
}

impl View for DecorationPasses {
    type V = Set<PassWrite>;

    closed spec fn view(&self) -> Set<PassWrite> {
        Set::new(
            |write: PassWrite|
                self.by_chunk@.contains_key(write.chunk) && self.by_chunk@[write.chunk]@.contains(
                    write.center,
                ),
        )
    }
}

impl DecorationPasses {
    /// No pass has run.
    pub fn new() -> (passes: Self)
        ensures
            passes@ == Set::<PassWrite>::empty(),
    {
        let passes = DecorationPasses { by_chunk: FxHashMap::default() };
        assert(passes@ =~= Set::empty());
        passes
    }

    /// Whether the pass of `center` has written to `chunk`.
    fn has_written(&self, center: (i32, i32), chunk: (i32, i32)) -> (written: bool)
        ensures
            written == self@.contains(PassWrite { center, chunk }),
    {
        match map_get(&self.by_chunk, chunk) {
            Some(centers) => set_contains(centers, center),
            None => false,
        }
    }

    /// Marks that the pass of `center` writes to `chunk`, and says whether that
    /// is new.
    fn mark(&mut self, center: (i32, i32), chunk: (i32, i32)) -> (added: bool)
        ensures
            added == !old(self)@.contains(PassWrite { center, chunk }),
            final(self)@ == old(self)@.insert(PassWrite { center, chunk }),
    {
        let mut centers = match map_remove(&mut self.by_chunk, chunk) {
            Some(centers) => centers,
            None => FxHashSet::default(),
        };
        let added = set_insert(&mut centers, center);
        map_insert(&mut self.by_chunk, chunk, centers);
        assert(self@ =~= old(self)@.insert(PassWrite { center, chunk }));
        added
    }

    /// Marks that the pass of `center` writes to everything within its reach, and
    /// returns the chunks that it had not written to.
    fn mark_pass(&mut self, center: (i32, i32)) -> (chunks: Vec<(i32, i32)>)
        requires
            area_fits(center.0, center.1, WRITE_RADIUS as int),
        ensures
            chunks@ == chunks_due(old(self)@, center),
            final(self)@ == with_passes(old(self)@, seq![center]),
    {
        let ghost start = self@;
        let ghost lacks = |chunk: (i32, i32)| !start.contains(PassWrite { center, chunk });
        let positions = area_positions(center.0, center.1, WRITE_RADIUS);
        proof {
            lemma_area_is_the_square(center.0, center.1, WRITE_RADIUS as int);
            positions@.take(0).lemma_filter_len(lacks);
        }
        let mut chunks: Vec<(i32, i32)> = Vec::new();
        let mut i: usize = 0;
        while i < positions.len()
            invariant
                i <= positions@.len(),
                positions@.no_duplicates(),
                lacks == (|chunk: (i32, i32)| !start.contains(PassWrite { center, chunk })),
                forall|write: PassWrite| #[trigger]
                    self@.contains(write) <==> start.contains(write) || (write.center == center
                        && positions@.take(i as int).contains(write.chunk)),
                chunks@ == positions@.take(i as int).filter(lacks),
            decreases positions@.len() - i,
        {
            let ghost seen = positions@.take(i as int);
            let ghost before = self@;
            let chunk = positions[i];
            proof {
                assert(positions@.take(i + 1) =~= seen.push(chunk));
                seen.lemma_filter_push(chunk, lacks);
                assert forall|j: int| 0 <= j < seen.len() implies seen[j] != chunk by {
                    assert(seen[j] == positions@[j]);
                }
            }
            if self.mark(center, chunk) {
                chunks.push(chunk);
            }
            i = i + 1;
            proof {
                assert forall|write: PassWrite| #[trigger]
                    self@.contains(write) <==> start.contains(write) || (write.center == center
                        && positions@.take(i as int).contains(write.chunk)) by {
                    assert(before.contains(write) <==> start.contains(write) || (write.center
                        == center && seen.contains(write.chunk)));
                    lemma_push_contains(seen, chunk, write.chunk);
                }
            }
        }
        proof {
            assert(positions@.take(i as int) =~= positions@);
            assert(seq![center][0] == center);
            assert(self@ =~= with_passes(start, seq![center]));
        }
        chunks
    }

    /// Marks what the passes write that have to run for a target chunk, and
    /// returns these passes in the order in which to run them, each with the
    /// chunks that it has to write to.
    pub fn claim(&mut self, chunk_x: i32, chunk_z: i32) -> (due: Vec<DuePass>)
        requires
            passes_fit(chunk_x, chunk_z),
        ensures
            runs_of(due@) == runs_due(old(self)@, chunk_x, chunk_z),
            final(self)@ == written_after(old(self)@, chunk_x, chunk_z),
    {
        let ghost start = self@;
        let ghost lacks = |center: (i32, i32)|
            !start.contains(PassWrite { center, chunk: (chunk_x, chunk_z) });
        let positions = area_positions(chunk_x, chunk_z, PASS_RADIUS);
        proof {
            lemma_area_is_the_square(chunk_x, chunk_z, PASS_RADIUS as int);
            positions@.take(0).lemma_filter_len(lacks);
            assert(self@ =~= with_passes(start, positions@.take(0).filter(lacks)));
        }
        let mut due: Vec<DuePass> = Vec::new();
        let mut i: usize = 0;
        while i < positions.len()
            invariant
                i <= positions@.len(),
                passes_fit(chunk_x, chunk_z),
                positions@.no_duplicates(),
                forall|pos: (i32, i32)| #[trigger]
                    positions@.contains(pos) <==> in_area(
                        chunk_x,
                        chunk_z,
                        PASS_RADIUS as int,
                        pos,
                    ),
                lacks == (|center: (i32, i32)|
                    !start.contains(PassWrite { center, chunk: (chunk_x, chunk_z) })),
                self@ == with_passes(start, positions@.take(i as int).filter(lacks)),
                due@.len() == positions@.take(i as int).filter(lacks).len(),
                forall|j: int|
                    0 <= j < due@.len() ==> (#[trigger] due@[j])@ == (PassRun {
                        center: positions@.take(i as int).filter(lacks)[j],
                        chunks: chunks_due(start, positions@.take(i as int).filter(lacks)[j]),
                    }),
            decreases positions@.len() - i,
        {
            let ghost seen = positions@.take(i as int);
            let ghost before = self@;
            let center = positions[i];
            proof {
                assert(positions@.contains(center));
                assert(positions@.take(i + 1) =~= seen.push(center));
                seen.lemma_filter_push(center, lacks);
                assert forall|j: int| 0 <= j < seen.len() implies seen[j] != center by {
                    assert(seen[j] == positions@[j]);
                }
                lemma_filter_members(seen, lacks, center);
                assert forall|chunk: (i32, i32)| #[trigger]
                    before.contains(PassWrite { center, chunk }) == start.contains(
                        PassWrite { center, chunk },
                    ) by {}
                assert(chunks_due(before, center) == chunks_due(start, center)) by {
                    assert((|chunk: (i32, i32)| !before.contains(PassWrite { center, chunk })) =~= (
                    |chunk: (i32, i32)| !start.contains(PassWrite { center, chunk })));
                }
            }
            if !self.has_written(center, (chunk_x, chunk_z)) {
                let chunks = self.mark_pass(center);
                due.push(DuePass { center, chunks });
                proof {
                    let centers = seen.filter(lacks);
                    assert forall|write: PassWrite| #[trigger]
                        self@.contains(write) <==> with_passes(start, centers.push(center)).contains(
                            write,
                        ) by {
                        lemma_push_contains(centers, center, write.center);
                        assert(seq![center].contains(write.center) <==> write.center == center) by {
                            assert(seq![center][0] == center);
                        }
                    }
                    assert(self@ =~= with_passes(start, centers.push(center)));
                }
            }
            i = i + 1;
        }
        proof {
            assert(positions@.take(i as int) =~= positions@);
            assert(runs_of(due@) =~= runs_due(start, chunk_x, chunk_z));
        }
        due
    }

    /// Forgets all writes to the chunks at the positions `gone`, whose holders
    /// have left. Writes to chunks that stayed are kept, also those of the passes
    /// of chunks that left.
    pub fn forget(&mut self, gone: &Vec<(i32, i32)>)
        ensures
            final(self)@ == written_kept(old(self)@, Some(gone@)),
    {
        let ghost start = self@;
        let mut i: usize = 0;
        while i < gone.len()
            invariant
                i <= gone@.len(),
                forall|write: PassWrite| #[trigger]
                    self@.contains(write) <==> start.contains(write) && !gone@.take(
                        i as int,
                    ).contains(write.chunk),
            decreases gone@.len() - i,
        {
            let ghost seen = gone@.take(i as int);
            let ghost before = self@;
            map_remove(&mut self.by_chunk, gone[i]);
            proof {
                assert(gone@.take(i + 1) =~= seen.push(gone@[i as int]));
                assert forall|write: PassWrite| #[trigger]
                    self@.contains(write) <==> start.contains(write) && !gone@.take(i + 1).contains(
                        write.chunk,
                    ) by {
                    assert(before.contains(write) <==> start.contains(write) && !seen.contains(
                        write.chunk,
                    ));
                    lemma_push_contains(seen, gone@[i as int], write.chunk);
                }
            }
            i = i + 1;
        }
        assert(gone@.take(i as int) =~= gone@);
        assert(self@ =~= written_kept(start, Some(gone@)));
    }

    /// Forgets all writes to the chunks whose holders left in an eviction. See
    /// [`DecorationPasses::forget`].
    pub fn forget_evicted(&mut self, evicted: &Evicted)
        ensures
            final(self)@ == written_kept(old(self)@, evicted@),
    {
        match evicted {
            Evicted::Oldest(gone) => {
                self.forget(gone);
            },
            Evicted::Everything => {
                self.by_chunk.clear();
                assert(self@ =~= Set::empty());
            },
        }
    }
}

/// A pass is due exactly if it can write to the target and has not, and it is due
/// once.
pub proof fn lemma_due_passes(written: Set<PassWrite>, chunk_x: i32, chunk_z: i32)
    requires
        area_fits(chunk_x, chunk_z, PASS_RADIUS as int),
    ensures
        due_passes(written, chunk_x, chunk_z).no_duplicates(),
        forall|center: (i32, i32)| #[trigger]
            due_passes(written, chunk_x, chunk_z).contains(center) <==> in_area(
                chunk_x,
                chunk_z,
                PASS_RADIUS as int,
                center,
            ) && !written.contains(PassWrite { center, chunk: (chunk_x, chunk_z) }),
{
    let positions = area(chunk_x, chunk_z, PASS_RADIUS as int);
    let lacks = |center: (i32, i32)|
        !written.contains(PassWrite { center, chunk: (chunk_x, chunk_z) });
    lemma_area_is_the_square(chunk_x, chunk_z, PASS_RADIUS as int);
    lemma_filter_no_duplicates(positions, lacks);
    assert forall|center: (i32, i32)| #[trigger]
        due_passes(written, chunk_x, chunk_z).contains(center) <==> positions.contains(center)
            && !written.contains(PassWrite { center, chunk: (chunk_x, chunk_z) }) by {
        lemma_filter_members(positions, lacks, center);
    }
}

/// A run of a pass writes to a chunk exactly if the chunk is within reach and has
/// not been written to by the pass, and it does so once.
pub proof fn lemma_chunks_due(written: Set<PassWrite>, center: (i32, i32))
    requires
        area_fits(center.0, center.1, WRITE_RADIUS as int),
    ensures
        chunks_due(written, center).no_duplicates(),
        forall|chunk: (i32, i32)| #[trigger]
            chunks_due(written, center).contains(chunk) <==> in_area(
                center.0,
                center.1,
                WRITE_RADIUS as int,
                chunk,
            ) && !written.contains(PassWrite { center, chunk }),
{
    let positions = area(center.0, center.1, WRITE_RADIUS as int);
    let lacks = |chunk: (i32, i32)| !written.contains(PassWrite { center, chunk });
    lemma_area_is_the_square(center.0, center.1, WRITE_RADIUS as int);
    lemma_filter_no_duplicates(positions, lacks);
    assert forall|chunk: (i32, i32)| #[trigger]
        chunks_due(written, center).contains(chunk) <==> positions.contains(chunk)
            && !written.contains(PassWrite { center, chunk }) by {
        lemma_filter_members(positions, lacks, chunk);
    }
}

/// Whatever has run or left before, a target is decorated in full once the runs
/// that it needs are done.
pub proof fn lemma_target_is_decorated_in_full(
    written: Set<PassWrite>,
    chunk_x: i32,
    chunk_z: i32,
)
    requires
        passes_fit(chunk_x, chunk_z),
    ensures
        is_decorated(written_after(written, chunk_x, chunk_z), (chunk_x, chunk_z)),
{
    lemma_due_passes(written, chunk_x, chunk_z);
    let due = due_passes(written, chunk_x, chunk_z);
    assert forall|center: (i32, i32)|
        in_area(chunk_x, chunk_z, WRITE_RADIUS as int, center) implies #[trigger] written_after(
        written,
        chunk_x,
        chunk_z,
    ).contains(PassWrite { center, chunk: (chunk_x, chunk_z) }) by {
        if !written.contains(PassWrite { center, chunk: (chunk_x, chunk_z) }) {
            assert(due.contains(center));
        }
    }
}

/// The runs that a target needs make exactly the writes that they add: no chunk
/// is written to by a pass that has written to it before.
pub proof fn lemma_runs_make_what_is_missing(
    written: Set<PassWrite>,
    chunk_x: i32,
    chunk_z: i32,
    write: PassWrite,
)
    requires
        passes_fit(chunk_x, chunk_z),
    ensures
        some_run_makes(runs_due(written, chunk_x, chunk_z), write) <==> !written.contains(write)
            && written_after(written, chunk_x, chunk_z).contains(write),
        made_at_most_once(runs_due(written, chunk_x, chunk_z), write),
{
    let due = due_passes(written, chunk_x, chunk_z);
    let runs = runs_due(written, chunk_x, chunk_z);
    lemma_due_passes(written, chunk_x, chunk_z);
    assert forall|i: int| 0 <= i < runs.len() implies {
        &&& (#[trigger] runs[i]).center == due[i]
        &&& runs[i].makes(write) <==> due[i] == write.center && in_area(
            write.center.0,
            write.center.1,
            WRITE_RADIUS as int,
            write.chunk,
        ) && !written.contains(write)
    } by {
        assert(due.contains(due[i]));
        lemma_chunks_due(written, due[i]);
    }
    if !written.contains(write) && written_after(written, chunk_x, chunk_z).contains(write) {
        let i = choose|i: int| 0 <= i < due.len() && due[i] == write.center;
        assert(runs[i].makes(write));
    }
    if some_run_makes(runs, write) {
        let i = choose|i: int| 0 <= i < runs.len() && (#[trigger] runs[i]).makes(write);
        assert(due[i] == write.center);
    }
}

/// A target that is decorated in full needs no pass.
pub proof fn lemma_decorated_target_needs_no_pass(
    written: Set<PassWrite>,
    chunk_x: i32,
    chunk_z: i32,
)
    requires
        area_fits(chunk_x, chunk_z, PASS_RADIUS as int),
        is_decorated(written, (chunk_x, chunk_z)),
    ensures
        due_passes(written, chunk_x, chunk_z).len() == 0,
        written_after(written, chunk_x, chunk_z) == written,
{
    let due = due_passes(written, chunk_x, chunk_z);
    lemma_due_passes(written, chunk_x, chunk_z);
    if due.len() > 0 {
        assert(due.contains(due[0]));
    }
    assert(written_after(written, chunk_x, chunk_z) =~= written);
}

/// A second call for the same target needs no pass, whatever left in between, as
/// long as the holder of the target itself stayed.
pub proof fn lemma_claiming_again_is_empty(
    written: Set<PassWrite>,
    gone: Seq<(i32, i32)>,
    chunk_x: i32,
    chunk_z: i32,
)
    requires
        passes_fit(chunk_x, chunk_z),
        !gone.contains((chunk_x, chunk_z)),
    ensures
        ({
            let kept = written_kept(written_after(written, chunk_x, chunk_z), Some(gone));
            &&& due_passes(kept, chunk_x, chunk_z).len() == 0
            &&& written_after(kept, chunk_x, chunk_z) == kept
        }),
{
    let after = written_after(written, chunk_x, chunk_z);
    let kept = written_kept(after, Some(gone));
    lemma_target_is_decorated_in_full(written, chunk_x, chunk_z);
    assert forall|center: (i32, i32)|
        in_area(chunk_x, chunk_z, WRITE_RADIUS as int, center) implies #[trigger] kept.contains(
        PassWrite { center, chunk: (chunk_x, chunk_z) },
    ) by {
        assert(after.contains(PassWrite { center, chunk: (chunk_x, chunk_z) }));
    }
    lemma_decorated_target_needs_no_pass(kept, chunk_x, chunk_z);
}

/// A chunk that no pass has written to needs all nine passes, in their order.
pub proof fn lemma_bare_target_needs_all_passes(
    written: Set<PassWrite>,
    chunk_x: i32,
    chunk_z: i32,
)
    requires
        area_fits(chunk_x, chunk_z, PASS_RADIUS as int),
        forall|center: (i32, i32)|
            in_area(chunk_x, chunk_z, PASS_RADIUS as int, center) ==> !#[trigger] written.contains(
                PassWrite { center, chunk: (chunk_x, chunk_z) },
            ),
    ensures
        due_passes(written, chunk_x, chunk_z) == area(chunk_x, chunk_z, PASS_RADIUS as int),
{
    let positions = area(chunk_x, chunk_z, PASS_RADIUS as int);
    let lacks = |center: (i32, i32)|
        !written.contains(PassWrite { center, chunk: (chunk_x, chunk_z) });
    lemma_area_is_the_square(chunk_x, chunk_z, PASS_RADIUS as int);
    assert forall|i: int| 0 <= i < positions.len() implies lacks(#[trigger] positions[i]) by {
        assert(positions.contains(positions[i]));
    }
    lemma_filter_keeps_all(positions, lacks);
}

/// After a chunk was evicted, whether or not chunks around it were, a target
/// there needs all nine passes, in their order.
pub proof fn lemma_evicted_target_needs_all_passes(
    written: Set<PassWrite>,
    gone: Seq<(i32, i32)>,
    chunk_x: i32,
    chunk_z: i32,
)
    requires
        area_fits(chunk_x, chunk_z, PASS_RADIUS as int),
        gone.contains((chunk_x, chunk_z)),
    ensures
        due_passes(written_kept(written, Some(gone)), chunk_x, chunk_z) == area(
            chunk_x,
            chunk_z,
            PASS_RADIUS as int,
        ),
{
    lemma_bare_target_needs_all_passes(written_kept(written, Some(gone)), chunk_x, chunk_z);
}

/// What happens to the passes of a world.
pub enum PassEvent {
    /// The passes that this target chunk needs were claimed and run.
    Target(i32, i32),
    /// Holders were evicted: these, or all.
    Evicted(Option<Seq<(i32, i32)>>),
}

/// The writes there are after a series of events.
pub open spec fn written_by(written: Set<PassWrite>, events: Seq<PassEvent>) -> Set<PassWrite>
    decreases events.len(),
{
    if events.len() == 0 {
        written
    } else {
        let before = written_by(written, events.drop_last());
        match events.last() {
            PassEvent::Target(chunk_x, chunk_z) => written_after(before, chunk_x, chunk_z),
            PassEvent::Evicted(gone) => written_kept(before, gone),
        }
    }
}

/// The runs of passes in a series of events, in order.
pub open spec fn runs_in(written: Set<PassWrite>, events: Seq<PassEvent>) -> Seq<PassRun>
    decreases events.len(),
{
    if events.len() == 0 {
        Seq::empty()
    } else {
        let before = written_by(written, events.drop_last());
        match events.last() {
            PassEvent::Target(chunk_x, chunk_z) => runs_in(written, events.drop_last()) + runs_due(
                before,
                chunk_x,
                chunk_z,
            ),
            PassEvent::Evicted(_) => runs_in(written, events.drop_last()),
        }
    }
}

/// `event` is a target whose area can be named, or an eviction in which the
/// holder of `chunk` stays.
pub open spec fn leaves_holder(event: PassEvent, chunk: (i32, i32)) -> bool {
    match event {
        PassEvent::Target(chunk_x, chunk_z) => passes_fit(chunk_x, chunk_z),
        PassEvent::Evicted(Some(gone)) => !gone.contains(chunk),
        PassEvent::Evicted(None) => false,
    }
}

/// As long as the holder of a chunk stays, a pass writes to the chunk at most
/// once, whatever else is evicted, and not at all where it had written to the
/// chunk before.
pub proof fn lemma_pass_writes_once_per_chunk(
    written: Set<PassWrite>,
    events: Seq<PassEvent>,
    write: PassWrite,
)
    requires
        forall|k: int| 0 <= k < events.len() ==> leaves_holder(#[trigger] events[k], write.chunk),
    ensures
        made_at_most_once(runs_in(written, events), write),
        some_run_makes(runs_in(written, events), write) <==> !written.contains(write) && written_by(
            written,
            events,
        ).contains(write),
        written.contains(write) ==> written_by(written, events).contains(write),
    decreases events.len(),
{
    if events.len() > 0 {
        let earlier = events.drop_last();
        assert forall|k: int| 0 <= k < earlier.len() implies leaves_holder(
            #[trigger] earlier[k],
            write.chunk,
        ) by {
            assert(leaves_holder(events[k], write.chunk));
        }
        lemma_pass_writes_once_per_chunk(written, earlier, write);
        assert(leaves_holder(events[events.len() - 1], write.chunk));
        let before = written_by(written, earlier);
        let ran = runs_in(written, earlier);
        match events.last() {
            PassEvent::Target(chunk_x, chunk_z) => {
                let due = runs_due(before, chunk_x, chunk_z);
                lemma_runs_make_what_is_missing(before, chunk_x, chunk_z, write);
                lemma_more_runs(ran, due, write);
            },
            PassEvent::Evicted(_) => {},
        }
    }
}

/// What the runs of two series make, where they do not make the same.
proof fn lemma_more_runs(earlier: Seq<PassRun>, later: Seq<PassRun>, write: PassWrite)
    requires
        made_at_most_once(earlier, write),
        made_at_most_once(later, write),
        !(some_run_makes(earlier, write) && some_run_makes(later, write)),
    ensures
        made_at_most_once(earlier + later, write),
        some_run_makes(earlier + later, write) <==> some_run_makes(earlier, write)
            || some_run_makes(later, write),
{
    let all = earlier + later;
    assert forall|i: int| 0 <= i < all.len() && (#[trigger] all[i]).makes(write) implies if i
        < earlier.len() {
        earlier[i].makes(write) && some_run_makes(earlier, write)
    } else {
        later[i - earlier.len()].makes(write) && some_run_makes(later, write)
    } by {
        if i < earlier.len() {
            assert(earlier[i].makes(write));
        } else {
            assert(later[i - earlier.len()].makes(write));
        }
    }
    if some_run_makes(earlier, write) {
        let i = choose|i: int| 0 <= i < earlier.len() && (#[trigger] earlier[i]).makes(write);
        assert(all[i].makes(write));
    }
    if some_run_makes(later, write) {
        let i = choose|i: int| 0 <= i < later.len() && (#[trigger] later[i]).makes(write);
        assert(all[earlier.len() + i].makes(write));
    }
}

/// Once a chunk is decorated in full, no run writes to it as long as its holder
/// stays, whatever else is asked for or evicted; and it stays decorated.
pub proof fn lemma_decorated_chunk_is_left_alone(
    written: Set<PassWrite>,
    events: Seq<PassEvent>,
    chunk: (i32, i32),
)
    requires
        is_decorated(written, chunk),
        forall|k: int| 0 <= k < events.len() ==> leaves_holder(#[trigger] events[k], chunk),
    ensures
        forall|i: int|
            0 <= i < runs_in(written, events).len() ==> !(#[trigger] runs_in(
                written,
                events,
            )[i]).chunks.contains(chunk),
        is_decorated(written_by(written, events), chunk),
{
    let runs = runs_in(written, events);
    lemma_runs_stay_within_reach(written, events, chunk);
    assert forall|i: int| 0 <= i < runs.len() implies !(#[trigger] runs[i]).chunks.contains(chunk) by {
        let write = PassWrite { center: runs[i].center, chunk };
        if runs[i].chunks.contains(chunk) {
            lemma_pass_writes_once_per_chunk(written, events, write);
            assert(runs[i].makes(write));
            assert(in_area(chunk.0, chunk.1, WRITE_RADIUS as int, write.center));
            assert(written.contains(write));
        }
    }
    assert forall|center: (i32, i32)|
        in_area(chunk.0, chunk.1, WRITE_RADIUS as int, center) implies #[trigger] written_by(
        written,
        events,
    ).contains(PassWrite { center, chunk }) by {
        lemma_pass_writes_once_per_chunk(written, events, PassWrite { center, chunk });
        assert(written.contains(PassWrite { center, chunk }));
    }
}

/// A run writes to no chunk further away than [`WRITE_RADIUS`].
proof fn lemma_runs_stay_within_reach(
    written: Set<PassWrite>,
    events: Seq<PassEvent>,
    chunk: (i32, i32),
)
    requires
        forall|k: int| 0 <= k < events.len() ==> leaves_holder(#[trigger] events[k], chunk),
    ensures
        forall|i: int|
            0 <= i < runs_in(written, events).len() && (#[trigger] runs_in(
                written,
                events,
            )[i]).chunks.contains(chunk) ==> in_area(
                runs_in(written, events)[i].center.0,
                runs_in(written, events)[i].center.1,
                WRITE_RADIUS as int,
                chunk,
            ),
    decreases events.len(),
{
    if events.len() > 0 {
        let earlier = events.drop_last();
        assert forall|k: int| 0 <= k < earlier.len() implies leaves_holder(
            #[trigger] earlier[k],
            chunk,
        ) by {
            assert(leaves_holder(events[k], chunk));
        }
        lemma_runs_stay_within_reach(written, earlier, chunk);
        assert(leaves_holder(events[events.len() - 1], chunk));
        let before = written_by(written, earlier);
        let ran = runs_in(written, earlier);
        match events.last() {
            PassEvent::Target(chunk_x, chunk_z) => {
                let due = due_passes(before, chunk_x, chunk_z);
                let all = ran + runs_due(before, chunk_x, chunk_z);
                lemma_due_passes(before, chunk_x, chunk_z);
                assert forall|i: int|
                    0 <= i < all.len() && (#[trigger] all[i]).chunks.contains(chunk) implies in_area(
                    all[i].center.0,
                    all[i].center.1,
                    WRITE_RADIUS as int,
                    chunk,
                ) by {
                    if i < ran.len() {
                        assert(ran[i].chunks.contains(chunk));
                    } else {
                        let center = due[i - ran.len()];
                        assert(due.contains(center));
                        lemma_chunks_due(before, center);
                    }
                }
            },
            PassEvent::Evicted(_) => {},
        }
    }
}

/// The pass of `center` has run.
pub open spec fn has_run(written: Set<PassWrite>, center: (i32, i32)) -> bool {
    written.contains(PassWrite { center, chunk: center })
}

/// Every pass that has run has written to everything within its reach, and all
/// writes are those of passes that have run. It is so until holders leave.
pub open spec fn all_whole(written: Set<PassWrite>) -> bool {
    forall|write: PassWrite| #[trigger]
        written.contains(write) <==> has_run(written, write.center) && in_area(
            write.center.0,
            write.center.1,
            WRITE_RADIUS as int,
            write.chunk,
        )
}

/// `event` is a target that asks for the pass of `center`.
pub open spec fn asks_for(event: PassEvent, center: (i32, i32)) -> bool {
    match event {
        PassEvent::Target(chunk_x, chunk_z) => in_area(
            chunk_x,
            chunk_z,
            PASS_RADIUS as int,
            center,
        ),
        PassEvent::Evicted(_) => false,
    }
}

/// Some target of a series asks for the pass of `center`.
pub open spec fn asked_for(events: Seq<PassEvent>, center: (i32, i32)) -> bool {
    exists|k: int| 0 <= k < events.len() && asks_for(#[trigger] events[k], center)
}

/// The pass of `center` runs in a series of runs.
pub open spec fn runs_pass(runs: Seq<PassRun>, center: (i32, i32)) -> bool {
    exists|i: int| 0 <= i < runs.len() && (#[trigger] runs[i]).center == center
}

/// One more event asks for what it asks for.
proof fn lemma_asked_for(events: Seq<PassEvent>, center: (i32, i32))
    requires
        events.len() > 0,
    ensures
        asked_for(events, center) <==> asked_for(events.drop_last(), center) || asks_for(
            events.last(),
            center,
        ),
{
    let earlier = events.drop_last();
    if asked_for(earlier, center) {
        let k = choose|k: int| 0 <= k < earlier.len() && asks_for(#[trigger] earlier[k], center);
        assert(asks_for(events[k], center));
    }
    if asked_for(events, center) {
        let k = choose|k: int| 0 <= k < events.len() && asks_for(#[trigger] events[k], center);
        if k < earlier.len() {
            assert(asks_for(earlier[k], center));
        }
    }
    if asks_for(events.last(), center) {
        assert(asks_for(events[events.len() - 1], center));
    }
}

/// The passes that run in two series of runs.
proof fn lemma_runs_pass(earlier: Seq<PassRun>, later: Seq<PassRun>, center: (i32, i32))
    ensures
        runs_pass(earlier + later, center) <==> runs_pass(earlier, center) || runs_pass(
            later,
            center,
        ),
{
    let all = earlier + later;
    if runs_pass(earlier, center) {
        let i = choose|i: int| 0 <= i < earlier.len() && (#[trigger] earlier[i]).center == center;
        assert(all[i].center == center);
    }
    if runs_pass(later, center) {
        let i = choose|i: int| 0 <= i < later.len() && (#[trigger] later[i]).center == center;
        assert(all[earlier.len() + i].center == center);
    }
    if runs_pass(all, center) {
        let i = choose|i: int| 0 <= i < all.len() && (#[trigger] all[i]).center == center;
        if i < earlier.len() {
            assert(earlier[i].center == center);
        } else {
            assert(later[i - earlier.len()].center == center);
        }
    }
}

/// As long as no holder leaves, each pass runs at most once over any series of
/// targets, and writes to everything within its reach then; and the passes that
/// run are those that some target asks for and that had not run before.
pub proof fn lemma_each_pass_runs_once(written: Set<PassWrite>, events: Seq<PassEvent>)
    requires
        all_whole(written),
        forall|k: int|
            0 <= k < events.len() ==> (match #[trigger] events[k] {
                PassEvent::Target(chunk_x, chunk_z) => passes_fit(chunk_x, chunk_z),
                PassEvent::Evicted(_) => false,
            }),
    ensures
        all_whole(written_by(written, events)),
        forall|i: int, j: int|
            0 <= i < j < runs_in(written, events).len() ==> (#[trigger] runs_in(
                written,
                events,
            )[i]).center != (#[trigger] runs_in(written, events)[j]).center,
        forall|i: int|
            0 <= i < runs_in(written, events).len() ==> (#[trigger] runs_in(
                written,
                events,
            )[i]).chunks == area(
                runs_in(written, events)[i].center.0,
                runs_in(written, events)[i].center.1,
                WRITE_RADIUS as int,
            ),
        forall|center: (i32, i32)| #[trigger]
            has_run(written_by(written, events), center) <==> has_run(written, center) || asked_for(
                events,
                center,
            ),
        forall|center: (i32, i32)| #[trigger]
            runs_pass(runs_in(written, events), center) <==> !has_run(written, center) && asked_for(
                events,
                center,
            ),
    decreases events.len(),
{
    if events.len() > 0 {
        let earlier = events.drop_last();
        assert forall|k: int| 0 <= k < earlier.len() implies (match #[trigger] earlier[k] {
            PassEvent::Target(chunk_x, chunk_z) => passes_fit(chunk_x, chunk_z),
            PassEvent::Evicted(_) => false,
        }) by {
            assert(earlier[k] == events[k]);
        }
        lemma_each_pass_runs_once(written, earlier);
        let before = written_by(written, earlier);
        let after = written_by(written, events);
        let ran = runs_in(written, earlier);
        let last = events[events.len() - 1];
        match last {
            PassEvent::Target(chunk_x, chunk_z) => {
                let due = due_passes(before, chunk_x, chunk_z);
                let runs = runs_due(before, chunk_x, chunk_z);
                let all = ran + runs;
                lemma_due_passes(before, chunk_x, chunk_z);
                assert forall|center: (i32, i32)| #[trigger]
                    due.contains(center) <==> asks_for(last, center) && !has_run(before, center) by {
                    if in_area(chunk_x, chunk_z, PASS_RADIUS as int, center) {
                        assert(before.contains(PassWrite { center, chunk: (chunk_x, chunk_z) })
                            <==> has_run(before, center));
                    }
                }
                assert forall|center: (i32, i32)| #[trigger]
                    has_run(after, center) <==> has_run(before, center) || asks_for(
                        last,
                        center,
                    ) by {
                    assert(due.contains(center) <==> asks_for(last, center) && !has_run(
                        before,
                        center,
                    ));
                }
                assert forall|write: PassWrite| #[trigger]
                    after.contains(write) <==> has_run(after, write.center) && in_area(
                        write.center.0,
                        write.center.1,
                        WRITE_RADIUS as int,
                        write.chunk,
                    ) by {
                    assert(before.contains(write) <==> has_run(before, write.center) && in_area(
                        write.center.0,
                        write.center.1,
                        WRITE_RADIUS as int,
                        write.chunk,
                    ));
                    assert(due.contains(write.center) <==> asks_for(last, write.center) && !has_run(
                        before,
                        write.center,
                    ));
                }
                assert forall|i: int| 0 <= i < runs.len() implies {
                    &&& (#[trigger] runs[i]).center == due[i]
                    &&& runs[i].chunks == area(due[i].0, due[i].1, WRITE_RADIUS as int)
                } by {
                    assert(due.contains(due[i]));
                    lemma_fresh_pass_writes_everything(before, due[i]);
                }
                assert forall|i: int| 0 <= i < all.len() implies (#[trigger] all[i]).chunks == area(
                    all[i].center.0,
                    all[i].center.1,
                    WRITE_RADIUS as int,
                ) by {
                    if i < ran.len() {
                        assert(ran[i] == all[i]);
                    } else {
                        assert(runs[i - ran.len()] == all[i]);
                    }
                }
                assert forall|i: int, j: int| 0 <= i < j < all.len() implies (
                #[trigger] all[i]).center != (#[trigger] all[j]).center by {
                    if j < ran.len() {
                        assert(ran[i].center != ran[j].center);
                    } else {
                        assert(runs[j - ran.len()].center == due[j - ran.len()]);
                        assert(due.contains(due[j - ran.len()]));
                        if i < ran.len() {
                            assert(ran[i].center == all[i].center);
                            assert(runs_pass(ran, all[i].center));
                            assert(has_run(before, all[i].center));
                        } else {
                            assert(runs[i - ran.len()].center == due[i - ran.len()]);
                        }
                    }
                }
                assert forall|center: (i32, i32)| #[trigger]
                    has_run(after, center) <==> has_run(written, center) || asked_for(
                        events,
                        center,
                    ) by {
                    assert(has_run(before, center) <==> has_run(written, center) || asked_for(
                        earlier,
                        center,
                    ));
                    lemma_asked_for(events, center);
                }
                assert forall|center: (i32, i32)| #[trigger]
                    runs_pass(all, center) <==> !has_run(written, center) && asked_for(
                        events,
                        center,
                    ) by {
                    assert(has_run(before, center) <==> has_run(written, center) || asked_for(
                        earlier,
                        center,
                    ));
                    assert(runs_pass(ran, center) <==> !has_run(written, center) && asked_for(
                        earlier,
                        center,
                    ));
                    lemma_asked_for(events, center);
                    lemma_runs_pass(ran, runs, center);
                    assert(runs_pass(runs, center) <==> due.contains(center)) by {
                        if runs_pass(runs, center) {
                            let i = choose|i: int|
                                0 <= i < runs.len() && (#[trigger] runs[i]).center == center;
                            assert(due[i] == center);
                        }
                        if due.contains(center) {
                            let i = choose|i: int| 0 <= i < due.len() && due[i] == center;
                            assert(runs[i].center == center);
                        }
                    }
                }
            },
            PassEvent::Evicted(_) => {},
        }
    }
}

/// A pass that has not run writes to everything within its reach.
proof fn lemma_fresh_pass_writes_everything(written: Set<PassWrite>, center: (i32, i32))
    requires
        all_whole(written),
        !has_run(written, center),
    ensures
        chunks_due(written, center) == area(center.0, center.1, WRITE_RADIUS as int),
{
    let positions = area(center.0, center.1, WRITE_RADIUS as int);
    let lacks = |chunk: (i32, i32)| !written.contains(PassWrite { center, chunk });
    assert forall|i: int| 0 <= i < positions.len() implies lacks(#[trigger] positions[i]) by {
        assert(!written.contains(PassWrite { center, chunk: positions[i] }));
    }
    lemma_filter_keeps_all(positions, lacks);
}

/// The runs of a series that write to the chunk at `pos`, in order.
pub open spec fn runs_to(runs: Seq<PassRun>, pos: (i32, i32)) -> Seq<(i32, i32)> {
    runs.filter(|run: PassRun| run.chunks.contains(pos)).map_values(|run: PassRun| run.center)
}

/// What a sequence with one more element contains.
proof fn lemma_push_contains(positions: Seq<(i32, i32)>, last: (i32, i32), pos: (i32, i32))
    ensures
        positions.push(last).contains(pos) <==> positions.contains(pos) || pos == last,
{
    let more = positions.push(last);
    if positions.contains(pos) {
        let i = choose|i: int| 0 <= i < positions.len() && positions[i] == pos;
        assert(more[i] == pos);
    }
    if pos == last {
        assert(more[positions.len() as int] == pos);
    }
}

/// A filter that nothing fails keeps everything.
proof fn lemma_filter_keeps_all(all: Seq<(i32, i32)>, keep: spec_fn((i32, i32)) -> bool)
    requires
        forall|i: int| 0 <= i < all.len() ==> keep(#[trigger] all[i]),
    ensures
        all.filter(keep) == all,
    decreases all.len(),
{
    reveal(Seq::filter);
    if all.len() > 0 {
        lemma_filter_keeps_all(all.drop_last(), keep);
        assert(keep(all[all.len() - 1]));
        assert(all.drop_last().push(all.last()) =~= all);
    } else {
        assert(all.filter(keep) =~= all);
    }
}

/// A filter keeps exactly the members that satisfy the predicate.
proof fn lemma_filter_members(
    all: Seq<(i32, i32)>,
    keep: spec_fn((i32, i32)) -> bool,
    pos: (i32, i32),
)
    ensures
        all.filter(keep).contains(pos) <==> all.contains(pos) && keep(pos),
{
    if all.filter(keep).contains(pos) {
        let i = choose|i: int| 0 <= i < all.filter(keep).len() && all.filter(keep)[i] == pos;
        all.lemma_filter_pred(keep, i);
        all.lemma_filter_contains_rev(keep, pos);
    }
    if all.contains(pos) && keep(pos) {
        let i = choose|i: int| 0 <= i < all.len() && all[i] == pos;
        all.lemma_filter_contains(keep, i);
    }
}

/// A filter repeats nothing that was not repeated before.
proof fn lemma_filter_no_duplicates(all: Seq<(i32, i32)>, keep: spec_fn((i32, i32)) -> bool)
    requires
        all.no_duplicates(),
    ensures
        all.filter(keep).no_duplicates(),
    decreases all.len(),
{
    reveal(Seq::filter);
    if all.len() > 0 {
        let rest = all.drop_last();
        lemma_filter_no_duplicates(rest, keep);
        assert(!rest.filter(keep).contains(all.last())) by {
            lemma_filter_members(rest, keep, all.last());
        }
    }
}

/// The runs that a target needs, by distance: a pass runs exactly if its chunk is
/// the target or touches it, and the pass has not written to the target. It runs
/// once. The passes run in ascending order of their positions, by the first
/// coordinate and then by the second.
pub proof fn lemma_runs_by_distance(written: Set<PassWrite>, chunk_x: i32, chunk_z: i32)
    requires
        i32::MIN + 2 <= chunk_x <= i32::MAX - 2,
        i32::MIN + 2 <= chunk_z <= i32::MAX - 2,
    ensures
        passes_fit(chunk_x, chunk_z),
        forall|center: (i32, i32)| #[trigger]
            runs_pass(runs_due(written, chunk_x, chunk_z), center) <==> -1 <= center.0 - chunk_x <= 1
                && -1 <= center.1 - chunk_z <= 1 && !written.contains(
                PassWrite { center, chunk: (chunk_x, chunk_z) },
            ),
        forall|i: int, j: int|
            0 <= i < j < runs_due(written, chunk_x, chunk_z).len() ==> comes_before(
                (#[trigger] runs_due(written, chunk_x, chunk_z)[i]).center,
                (#[trigger] runs_due(written, chunk_x, chunk_z)[j]).center,
            ),
{
    let due = due_passes(written, chunk_x, chunk_z);
    let runs = runs_due(written, chunk_x, chunk_z);
    lemma_due_passes(written, chunk_x, chunk_z);
    lemma_area_ascends(chunk_x, chunk_z, PASS_RADIUS as int);
    lemma_filter_ascends(
        area(chunk_x, chunk_z, PASS_RADIUS as int),
        |center: (i32, i32)| !written.contains(PassWrite { center, chunk: (chunk_x, chunk_z) }),
    );
    assert forall|center: (i32, i32)| #[trigger]
        runs_pass(runs, center) <==> due.contains(center) by {
        if runs_pass(runs, center) {
            let i = choose|i: int| 0 <= i < runs.len() && (#[trigger] runs[i]).center == center;
            assert(due[i] == center);
        }
        if due.contains(center) {
            let i = choose|i: int| 0 <= i < due.len() && due[i] == center;
            assert(runs[i].center == center);
        }
    }
    assert forall|i: int, j: int| 0 <= i < j < runs.len() implies comes_before(
        (#[trigger] runs[i]).center,
        (#[trigger] runs[j]).center,
    ) by {
        assert(comes_before(due[i], due[j]));
    }
}

/// What a run that a target needs writes to, by distance: exactly the chunks that
/// are its center or touch it and that the pass has not written to, in ascending
/// order.
pub proof fn lemma_run_writes_by_distance(
    written: Set<PassWrite>,
    chunk_x: i32,
    chunk_z: i32,
    i: int,
)
    requires
        i32::MIN + 2 <= chunk_x <= i32::MAX - 2,
        i32::MIN + 2 <= chunk_z <= i32::MAX - 2,
        0 <= i < runs_due(written, chunk_x, chunk_z).len(),
    ensures
        ({
            let run = runs_due(written, chunk_x, chunk_z)[i];
            let center = run.center;
            &&& forall|chunk: (i32, i32)| #[trigger]
                run.chunks.contains(chunk) <==> -1 <= chunk.0 - center.0 <= 1 && -1 <= chunk.1
                    - center.1 <= 1 && !written.contains(PassWrite { center, chunk })
            &&& forall|j: int, k: int|
                0 <= j < k < run.chunks.len() ==> comes_before(
                    #[trigger] run.chunks[j],
                    #[trigger] run.chunks[k],
                )
            &&& run.chunks.contains((chunk_x, chunk_z))
        }),
{
    let due = due_passes(written, chunk_x, chunk_z);
    let center = due[i];
    lemma_due_passes(written, chunk_x, chunk_z);
    assert(due.contains(center));
    lemma_chunks_due(written, center);
    lemma_area_ascends(center.0, center.1, WRITE_RADIUS as int);
    lemma_filter_ascends(
        area(center.0, center.1, WRITE_RADIUS as int),
        |chunk: (i32, i32)| !written.contains(PassWrite { center, chunk }),
    );
}

/// What is written once a target has what it needs, by distance: what was written
/// before, and everything around the chunks of the passes that ran. Nothing else
/// is marked, so no pass counts that has not run; and all nine passes have written
/// to the target.
pub proof fn lemma_written_by_distance(
    written: Set<PassWrite>,
    chunk_x: i32,
    chunk_z: i32,
    write: PassWrite,
)
    requires
        i32::MIN + 2 <= chunk_x <= i32::MAX - 2,
        i32::MIN + 2 <= chunk_z <= i32::MAX - 2,
    ensures
        written_after(written, chunk_x, chunk_z).contains(write) <==> written.contains(write) || (-1
            <= write.center.0 - chunk_x <= 1 && -1 <= write.center.1 - chunk_z <= 1
            && !written.contains(PassWrite { center: write.center, chunk: (chunk_x, chunk_z) }) && -1
            <= write.chunk.0 - write.center.0 <= 1 && -1 <= write.chunk.1 - write.center.1 <= 1),
        -1 <= write.center.0 - chunk_x <= 1 && -1 <= write.center.1 - chunk_z <= 1 && write.chunk == (
        chunk_x, chunk_z) ==> written_after(written, chunk_x, chunk_z).contains(write),
{
    lemma_due_passes(written, chunk_x, chunk_z);
    assert(due_passes(written, chunk_x, chunk_z).contains(write.center) <==> in_area(
        chunk_x,
        chunk_z,
        PASS_RADIUS as int,
        write.center,
    ) && !written.contains(PassWrite { center: write.center, chunk: (chunk_x, chunk_z) }));
}

/// An eviction takes away the writes to the chunks that left, whichever pass made
/// them, and no others.
pub proof fn lemma_eviction_takes_the_writes(
    written: Set<PassWrite>,
    gone: Seq<(i32, i32)>,
    write: PassWrite,
)
    ensures
        gone.contains(write.chunk) ==> !written_kept(written, Some(gone)).contains(write),
        !gone.contains(write.chunk) ==> written_kept(written, Some(gone)).contains(write)
            == written.contains(write),
        !written_kept(written, None).contains(write),
{
}

/// A list of passes stands for the same passes, in the same order, with the same
/// chunks to write to.
pub proof fn lemma_runs_are_the_passes(due: Seq<DuePass>, i: int)
    requires
        0 <= i < due.len(),
    ensures
        runs_of(due).len() == due.len(),
        runs_of(due)[i].center == due[i].center,
        runs_of(due)[i].chunks == due[i].chunks@,
{
}

} // verus!
