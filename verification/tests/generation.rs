use std::sync::Arc;

use steel_provider::buffer::ByteBuffer;
use steel_provider::decoration::DuePass;
use steel_provider::generation::{
    generation_pipeline, generation_threads, overworld_settings, world_seed, ChunkTask, Stage,
    TaskStep, HEIGHT, MIN_Y, SECTION_COUNT,
};
use steel_provider::holders::HolderCache;
use steel_provider::sections::serialize_chunk_sections;
use steel_provider::target::{JobEvent, JobStep, TargetJob};

#[test]
fn sections_make_up_the_height() {
    assert_eq!(MIN_Y, -64);
    assert_eq!(HEIGHT, 384);
    assert_eq!(SECTION_COUNT, 24);
    assert_eq!(SECTION_COUNT as i32 * 16, HEIGHT);
}

#[test]
fn seeds_keep_their_bits() {
    assert_eq!(world_seed(0), 0);
    assert_eq!(world_seed(42), 42);
    assert_eq!(world_seed(i64::MAX as u64), i64::MAX);
    assert_eq!(world_seed(1 << 63), i64::MIN);
    assert_eq!(world_seed(u64::MAX), -1);
}

#[test]
fn overworld_has_its_settings() {
    let settings = overworld_settings(u64::MAX - 1);
    assert_eq!(settings.seed, -2);
    assert_eq!(settings.min_y, -64);
    assert_eq!(settings.height, 384);
    assert_eq!(settings.view_distance, 2);
    assert_eq!(settings.simulation_distance, 2);
    assert_eq!(settings.max_chained_neighbor_updates, 1_000_000);
    assert_eq!(settings.sea_level, 63);
    assert!(!settings.is_flat);
}

#[test]
fn threads_are_bounded() {
    assert_eq!(generation_threads(None), 4);
    assert_eq!(generation_threads(Some(1)), 1);
    assert_eq!(generation_threads(Some(16)), 16);
    assert_eq!(generation_threads(Some(17)), 16);
    assert_eq!(generation_threads(Some(128)), 16);
}

#[test]
fn stages_come_in_order() {
    assert_eq!(
        generation_pipeline(),
        vec![
            Stage::StructureStarts,
            Stage::Biomes,
            Stage::Noise,
            Stage::Surface,
            Stage::Carvers,
        ]
    );
}

#[test]
fn a_chunk_is_looked_at_twice() {
    assert_eq!(ChunkTask::new().look(true), TaskStep::Skip);

    let mut task = ChunkTask::new();
    assert_eq!(task.look(false), TaskStep::Lock);
    assert_eq!(task.look(true), TaskStep::Skip);

    let mut task = ChunkTask::new();
    assert_eq!(task.look(false), TaskStep::Lock);
    assert_eq!(task.look(false), TaskStep::Generate);
}

#[test]
fn two_tasks_generate_a_chunk_once() {
    let mut carved = false;
    let mut generations = 0;
    let mut tasks = vec![ChunkTask::new(), ChunkTask::new()];
    for task in &mut tasks {
        assert_eq!(task.look(carved), TaskStep::Lock);
    }
    for task in &mut tasks {
        if task.look(carved) == TaskStep::Generate {
            generations += 1;
            carved = true;
        }
    }
    assert_eq!(generations, 1);
    assert!(carved);
}

#[test]
fn a_job_follows_the_plan() {
    let mut cache: HolderCache<(i32, i32), u64> = HolderCache::new();
    let mut job = TargetJob::new();
    assert_eq!(
        job.next(JobEvent::Started { crowded: false }),
        JobStep::Acquire
    );
    let neighborhood = cache.acquire_neighborhood(2, 3, |x, z| (x, z));
    assert_eq!(
        job.next(JobEvent::Acquired(neighborhood.clone())),
        JobStep::Carve
    );
    assert_eq!(job.next(JobEvent::Carved), JobStep::ClaimPasses);
    assert_eq!(
        job.next(JobEvent::Claimed(vec![
            DuePass {
                center: (1, 2),
                chunks: vec![(1, 2), (2, 3)],
            },
            DuePass {
                center: (3, 4),
                chunks: vec![(2, 3)],
            },
        ])),
        JobStep::RunPass((1, 2))
    );
    assert!(!job.needs_stand_in(1, 2));
    assert!(!job.needs_stand_in(2, 3));
    assert!(job.needs_stand_in(0, 1));
    assert!(job.needs_stand_in(2, 2));
    assert!(!job.needs_stand_in(3, 2));
    assert!(!job.needs_stand_in(1, 4));
    assert_eq!(job.next(JobEvent::PassRun), JobStep::RunPass((3, 4)));
    assert!(job.needs_stand_in(3, 4));
    assert!(!job.needs_stand_in(2, 3));
    assert!(!job.needs_stand_in(1, 2));
    assert_eq!(job.next(JobEvent::PassRun), JobStep::Extract);
    assert!(!job.needs_stand_in(3, 4));

    for (pos, holder) in &neighborhood {
        assert!(Arc::ptr_eq(&job.holder(pos.0, pos.1).unwrap(), holder));
    }
    assert_eq!(*job.holder(-1, 6).unwrap(), (-1, 6));
    assert!(job.holder(-2, 3).is_none());
    assert!(job.holder(2, 7).is_none());
}

#[test]
fn a_crowded_job_evicts_first() {
    let mut job: TargetJob<u64> = TargetJob::new();
    assert_eq!(job.next(JobEvent::Started { crowded: true }), JobStep::Evict);
    assert_eq!(job.next(JobEvent::Evicted), JobStep::Acquire);
}

#[test]
fn a_job_without_passes_only_extracts() {
    let mut job: TargetJob<u64> = TargetJob::new();
    job.next(JobEvent::Started { crowded: false });
    job.next(JobEvent::Acquired(vec![]));
    job.next(JobEvent::Carved);
    assert_eq!(job.next(JobEvent::Claimed(vec![])), JobStep::Extract);
    assert!(job.holder(0, 0).is_none());
}

#[test]
fn sections_follow_each_other() {
    assert_eq!(
        serialize_chunk_sections(&vec![vec![1, 2], vec![], vec![3]]),
        vec![1, 2, 3]
    );
    assert!(serialize_chunk_sections(&vec![]).is_empty());
}

#[test]
fn a_chunk_with_a_section_has_bytes() {
    let mut sections = vec![vec![]; SECTION_COUNT];
    sections[23] = vec![0];
    assert!(!serialize_chunk_sections(&sections).is_empty());
}

#[test]
fn buffers_are_freed_as_they_were_given() {
    let buffer = ByteBuffer::from_parts(4096, 3, 8);
    assert_eq!(buffer.into_parts(), Some((4096, 3, 8)));
    let empty = ByteBuffer::from_parts(1, 0, 0);
    assert_eq!(empty.into_parts(), Some((1, 0, 0)));
    let null = ByteBuffer::from_parts(0, 0, 0);
    assert_eq!(null.into_parts(), None);
}
