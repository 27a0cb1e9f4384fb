//! How one chunk is generated: world settings, stages, and who generates.
use vstd::prelude::*;

verus! {

/// Lowest block layer of a chunk.
pub const MIN_Y: i32 = -64;

/// Number of block layers of a chunk.
pub const HEIGHT: i32 = 384;

/// Number of sections of a chunk, each of 16 block layers.
pub const SECTION_COUNT: usize = 24;

/// The most threads that generate chunks for one world.
pub const MAX_GENERATION_THREADS: usize = 16;

/// The number of threads that generate chunks where the machine does not say
/// how many it can run.
pub const DEFAULT_GENERATION_THREADS: usize = 4;

/// The sections of a chunk make up its height, and the layers run from -64 up to
/// and not including 320.
pub proof fn lemma_sections_make_up_the_height()
    ensures
        SECTION_COUNT * 16 == HEIGHT,
        MIN_Y == -64,
        MIN_Y + HEIGHT == 320,
{
}

/// The settings of the overworld of one seed.
#[derive(Clone, Copy, Debug, PartialEq, Eq, Structural)]
pub struct WorldSettings {
    /// The seed, as a signed number.
    pub seed: i64,
    /// Lowest block layer.
    pub min_y: i32,
    /// Number of block layers.
    pub height: i32,
    /// View distance in chunks.
    pub view_distance: u8,
    /// Simulation distance in chunks.
    pub simulation_distance: u8,
    /// Limit on neighbor updates that cause each other.
    pub max_chained_neighbor_updates: i32,
    /// Layer of the sea's surface.
    pub sea_level: i32,
    /// Whether the world is flat.
    pub is_flat: bool,
}

/// The signed number with the same 64 bits as `seed`, in two's complement.
pub open spec fn signed_seed(seed: u64) -> int {
    if seed < 0x8000_0000_0000_0000 {
        seed as int
    } else {
        seed - 0x1_0000_0000_0000_0000
    }
}

/// The seed as a signed number with the same bits.
pub fn world_seed(seed: u64) -> (signed: i64)
    ensures
        signed == signed_seed(seed),
{
    if seed < 0x8000_0000_0000_0000 {
        seed as i64
    } else {
        -((0xffff_ffff_ffff_ffff - seed) as i64) - 1
    }
}

/// Two seeds that differ make worlds with different seeds.
pub proof fn lemma_seeds_stay_apart(one: u64, other: u64)
    ensures
        signed_seed(one) == signed_seed(other) <==> one == other,
{
}

/// The settings of the overworld of a seed, which differ in the seed alone.
pub open spec fn overworld_of(seed: u64) -> WorldSettings {
    WorldSettings {
        seed: signed_seed(seed) as i64,
        min_y: MIN_Y,
        height: HEIGHT,
        view_distance: 2,
        simulation_distance: 2,
        max_chained_neighbor_updates: 1_000_000,
        sea_level: 63,
        is_flat: false,
    }
}

/// The settings of the overworld of a seed.
pub fn overworld_settings(seed: u64) -> (settings: WorldSettings)
    ensures
        settings == overworld_of(seed),
        settings.seed == signed_seed(seed),
        settings == (WorldSettings {
            seed: settings.seed,
            min_y: MIN_Y,
            height: HEIGHT,
            view_distance: 2,
            simulation_distance: 2,
            max_chained_neighbor_updates: 1_000_000,
            sea_level: 63,
            is_flat: false,
        }),
{
    WorldSettings {
        seed: world_seed(seed),
        min_y: MIN_Y,
        height: HEIGHT,
        view_distance: 2,
        simulation_distance: 2,
        max_chained_neighbor_updates: 1_000_000,
        sea_level: 63,
        is_flat: false,
    }
}

/// How many threads generate chunks, given how many the machine says it can run
/// at once.
pub open spec fn thread_count(available: Option<usize>) -> usize {
    match available {
        Some(n) => if n <= MAX_GENERATION_THREADS {
            n
        } else {
            MAX_GENERATION_THREADS
        },
        None => DEFAULT_GENERATION_THREADS,
    }
}

/// How many threads generate chunks, given how many the machine says it can run
/// at once.
pub fn generation_threads(available: Option<usize>) -> (threads: usize)
    ensures
        threads == thread_count(available),
        threads == match available {
            Some(n) => if n <= MAX_GENERATION_THREADS {
                n
            } else {
                MAX_GENERATION_THREADS
            },
            None => DEFAULT_GENERATION_THREADS,
        },
{
    match available {
        Some(n) => if n <= MAX_GENERATION_THREADS {
            n
        } else {
            MAX_GENERATION_THREADS
        },
        None => DEFAULT_GENERATION_THREADS,
    }
}

/// A stage of the generation of one chunk.
#[derive(Clone, Copy, Debug, PartialEq, Eq, Structural)]
pub enum Stage {
    /// Structure starts.
    StructureStarts,
    /// Biomes.
    Biomes,
    /// Terrain from noise, without the shaping around structures.
    Noise,
    /// Surface blocks.
    Surface,
    /// Caves and canyons.
    Carvers,
}

/// The stages that bring an empty chunk to the state after carving, in order.
pub fn generation_pipeline() -> (stages: Vec<Stage>)
    ensures
        stages@ == seq![
            Stage::StructureStarts,
            Stage::Biomes,
            Stage::Noise,
            Stage::Surface,
            Stage::Carvers,
        ],
{
    vec![Stage::StructureStarts, Stage::Biomes, Stage::Noise, Stage::Surface, Stage::Carvers]
}

/// What to do with a chunk that a neighborhood needs.
#[derive(Clone, Copy, Debug, PartialEq, Eq, Structural)]
pub enum TaskStep {
    /// The chunk is there: nothing is left to do.
    Skip,
    /// Take the mutex of the chunk's position and look again.
    Lock,
    /// Generate the chunk, with the mutex held.
    Generate,
}

/// What follows from a look at a chunk: whether it is carved already, and
/// whether the mutex of its position is held.
pub open spec fn step_after_look(locked: bool, carved: bool) -> TaskStep {
    if carved {
        TaskStep::Skip
    } else if locked {
        TaskStep::Generate
    } else {
        TaskStep::Lock
    }
}

/// The task of one caller that needs a chunk to be carved.
///
/// The chunk is looked at twice: without the mutex, so that a chunk that is
/// there costs nothing, and with it, because somebody else may have generated
/// the chunk meanwhile.
pub struct ChunkTask {
    locked: bool,
}

impl ChunkTask {
    /// The mutex of the chunk's position is held.
    pub closed spec fn locked(&self) -> bool {
        self.locked
    }

    /// A task without the mutex.
    pub fn new() -> (task: Self)
        ensures
            !task.locked(),
    {
        ChunkTask { locked: false }
    }

    /// Takes in a look at the chunk. After [`TaskStep::Lock`] the caller takes
    /// the mutex and looks again.
    pub fn look(&mut self, carved: bool) -> (step: TaskStep)
        ensures
            step == step_after_look(old(self).locked(), carved),
            final(self).locked() == (old(self).locked() || step == TaskStep::Lock),
    {
        if carved {
            TaskStep::Skip
        } else if self.locked {
            TaskStep::Generate
        } else {
            self.locked = true;
            TaskStep::Lock
        }
    }
}

/// Whether a chunk is carved after a series of looks at it, by any number of
/// tasks, where it was `carved` before. Each look is given by whether the mutex
/// was held; a task that finds it must generate does so before it lets go of
/// the mutex.
pub open spec fn carved_after(carved: bool, looks: Seq<bool>) -> bool
    decreases looks.len(),
{
    if looks.len() == 0 {
        carved
    } else {
        let before = carved_after(carved, looks.drop_last());
        before || step_after_look(looks.last(), before) == TaskStep::Generate
    }
}

/// How often a chunk is generated in a series of looks at it.
pub open spec fn generations(carved: bool, looks: Seq<bool>) -> nat
    decreases looks.len(),
{
    if looks.len() == 0 {
        0
    } else {
        let before = carved_after(carved, looks.drop_last());
        generations(carved, looks.drop_last()) + if step_after_look(looks.last(), before)
            == TaskStep::Generate {
            1nat
        } else {
            0nat
        }
    }
}

/// A chunk is generated at most once, and not at all where it was carved before;
/// and once some task has looked with the mutex held, it is carved.
pub proof fn lemma_generated_at_most_once(carved: bool, looks: Seq<bool>)
    ensures
        generations(carved, looks) == if !carved && looks.contains(true) {
            1nat
        } else {
            0nat
        },
        carved_after(carved, looks) == (carved || looks.contains(true)),
    decreases looks.len(),
{
    if looks.len() > 0 {
        let earlier = looks.drop_last();
        lemma_generated_at_most_once(carved, earlier);
        if earlier.contains(true) {
            let i = choose|i: int| 0 <= i < earlier.len() && earlier[i] == true;
            assert(looks[i] == true);
        }
        if looks.contains(true) && !looks.last() {
            let i = choose|i: int| 0 <= i < looks.len() && looks[i] == true;
            assert(earlier[i] == true);
        }
        if looks.last() {
            assert(looks[looks.len() - 1] == true);
        }
    }
}

/// The signed seed has the bits of the seed: it is a 64-bit signed number, and
/// the two differ by a multiple of 2^64. A seed that is a signed number already
/// is its own signed seed.
pub proof fn lemma_signed_seed_has_the_bits(seed: u64)
    ensures
        -0x8000_0000_0000_0000 <= signed_seed(seed) < 0x8000_0000_0000_0000,
        (signed_seed(seed) - seed) % 0x1_0000_0000_0000_0000 == 0,
        seed < 0x8000_0000_0000_0000 ==> signed_seed(seed) == seed,
        signed_seed(seed) < 0 ==> signed_seed(seed) + 0x1_0000_0000_0000_0000 == seed,
{
}

/// The threads that generate chunks are those that the machine can run, but no
/// more than 16, and 4 where the machine does not say.
pub proof fn lemma_thread_count(n: usize)
    ensures
        thread_count(Some(n)) <= n,
        thread_count(Some(n)) <= 16,
        thread_count(Some(n)) == n || thread_count(Some(n)) == 16,
        thread_count(None) == 4,
{
}

/// All overworlds have the same settings but for the seed, which has the bits of
/// the seed that was asked for.
pub proof fn lemma_overworlds_differ_in_the_seed_alone(seed: u64, other: u64)
    ensures
        overworld_of(seed) == (WorldSettings { seed: overworld_of(seed).seed, ..overworld_of(other) }),
        (overworld_of(seed).seed - seed) % 0x1_0000_0000_0000_0000 == 0,
        overworld_of(seed).min_y == -64,
        overworld_of(seed).height == 384,
        overworld_of(seed).view_distance == 2,
        overworld_of(seed).simulation_distance == 2,
        overworld_of(seed).max_chained_neighbor_updates == 1_000_000,
        overworld_of(seed).sea_level == 63,
        !overworld_of(seed).is_flat,
{
}

/// A chunk that is carved is left alone; one that is not is generated by whoever
/// holds the mutex, and by nobody else.
pub proof fn lemma_who_generates(locked: bool, carved: bool)
    ensures
        step_after_look(locked, carved) == TaskStep::Generate <==> locked && !carved,
        step_after_look(locked, carved) == TaskStep::Lock <==> !locked && !carved,
        step_after_look(locked, carved) == TaskStep::Skip <==> carved,
{
}

} // verus!
