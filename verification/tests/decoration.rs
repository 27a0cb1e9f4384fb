use steel_provider::decoration::{DecorationPasses, DuePass};
use steel_provider::holders::{Evicted, HolderCache};

/// The three by three positions around one, in order.
fn square(x: i32, z: i32) -> Vec<(i32, i32)> {
    vec![
        (x - 1, z - 1),
        (x - 1, z),
        (x - 1, z + 1),
        (x, z - 1),
        (x, z),
        (x, z + 1),
        (x + 1, z - 1),
        (x + 1, z),
        (x + 1, z + 1),
    ]
}

fn centers(due: &[DuePass]) -> Vec<(i32, i32)> {
    due.iter().map(|pass| pass.center).collect()
}

/// Passes that write to everything within their reach.
fn whole(due: &[DuePass]) -> bool {
    due.iter()
        .all(|pass| pass.chunks == square(pass.center.0, pass.center.1))
}

#[test]
fn first_target_runs_nine_passes_in_order() {
    let mut passes = DecorationPasses::new();
    let due = passes.claim(5, -5);
    assert_eq!(
        centers(&due),
        vec![
            (4, -6),
            (4, -5),
            (4, -4),
            (5, -6),
            (5, -5),
            (5, -4),
            (6, -6),
            (6, -5),
            (6, -4),
        ]
    );
    assert!(whole(&due));
}

#[test]
fn second_call_runs_no_pass() {
    let mut passes = DecorationPasses::new();
    assert_eq!(passes.claim(0, 0).len(), 9);
    assert!(passes.claim(0, 0).is_empty());
}

#[test]
fn neighbors_share_their_passes() {
    let mut passes = DecorationPasses::new();
    passes.claim(0, 0);
    let due = passes.claim(1, 0);
    assert_eq!(centers(&due), vec![(2, -1), (2, 0), (2, 1)]);
    assert!(whole(&due));
    let due = passes.claim(0, 1);
    assert_eq!(centers(&due), vec![(-1, 2), (0, 2), (1, 2)]);
    assert!(whole(&due));
}

#[test]
fn each_pass_runs_once_over_many_targets() {
    let mut passes = DecorationPasses::new();
    let mut run = Vec::new();
    for x in 0..4 {
        for z in 0..4 {
            let due = passes.claim(x, z);
            assert!(whole(&due));
            run.extend(centers(&due));
        }
    }
    assert_eq!(run.len(), 36);
    run.sort();
    run.dedup();
    assert_eq!(run.len(), 36);
    assert_eq!(run[0], (-1, -1));
    assert_eq!(run[35], (4, 4));
}

#[test]
fn an_evicted_chunk_gets_all_passes_and_the_others_none() {
    let mut passes = DecorationPasses::new();
    passes.claim(0, 0);
    passes.claim(5, 5);
    passes.forget(&vec![(0, 0)]);
    let due = passes.claim(0, 0);
    assert_eq!(centers(&due), square(0, 0));
    assert!(due.iter().all(|pass| pass.chunks == vec![(0, 0)]));
    assert!(passes.claim(0, 0).is_empty());
    assert!(passes.claim(5, 5).is_empty());
}

#[test]
fn an_evicted_area_gets_all_passes() {
    let mut passes = DecorationPasses::new();
    passes.claim(0, 0);
    passes.forget(&square(0, 0));
    let due = passes.claim(0, 0);
    assert_eq!(centers(&due), square(0, 0));
    // The pass of the center finds none of its nine chunks written to; that of
    // a corner finds five chunks outside the area that stayed.
    assert_eq!(due[4].chunks, square(0, 0));
    assert_eq!(due[0].chunks, vec![(-1, -1), (-1, 0), (0, -1), (0, 0)]);
    assert!(passes.claim(0, 0).is_empty());
}

#[test]
fn a_target_that_stayed_runs_no_pass_after_an_eviction() {
    let mut passes = DecorationPasses::new();
    passes.claim(0, 0);
    passes.forget(&vec![(1, 0), (0, 1), (2, 0), (7, 7)]);
    assert!(passes.claim(0, 0).is_empty());
    // The passes of (0, -1), (0, 0) and (0, 1) reach the chunk that left.
    let due = passes.claim(1, 0);
    assert_eq!(centers(&due), square(1, 0));
    assert_eq!(due[0].center, (0, -1));
    assert_eq!(due[0].chunks, vec![(1, 0)]);
    assert_eq!(due[1].center, (0, 0));
    assert_eq!(due[1].chunks, vec![(0, 1), (1, 0)]);
    // The pass of (2, 0) had not run at all.
    assert_eq!(due[7].center, (2, 0));
    assert_eq!(due[7].chunks, square(2, 0));
}

#[test]
fn forgetting_nothing_changes_nothing() {
    let mut passes = DecorationPasses::new();
    passes.claim(0, 0);
    passes.forget(&Vec::new());
    assert!(passes.claim(0, 0).is_empty());
}

#[test]
fn an_eviction_of_everything_forgets_every_pass() {
    let mut passes = DecorationPasses::new();
    passes.claim(0, 0);
    passes.claim(20, 20);
    passes.forget_evicted(&Evicted::Everything);
    let due = passes.claim(0, 0);
    assert_eq!(due.len(), 9);
    assert!(whole(&due));
    assert_eq!(passes.claim(20, 20).len(), 9);
}

#[test]
fn an_evicted_target_is_decorated_again() {
    let mut cache: HolderCache<i32, u64> = HolderCache::new();
    let mut passes = DecorationPasses::new();
    for k in 0..205 {
        cache.acquire_neighborhood(7 * k, 0, |_, _| k);
        assert_eq!(passes.claim(7 * k, 0).len(), 9);
    }
    assert!(cache.needs_eviction());
    passes.forget_evicted(&cache.evict());

    // All holders around the first target left: all passes run in whole.
    cache.acquire_neighborhood(0, 0, |_, _| -1);
    let due = passes.claim(0, 0);
    assert_eq!(due.len(), 9);
    assert!(whole(&due));
    // Those of the last target stayed: none runs.
    let kept = cache.acquire_neighborhood(7 * 204, 0, |_, _| -1);
    assert!(kept.iter().all(|(_, holder)| **holder == 204));
    assert!(passes.claim(7 * 204, 0).is_empty());
}

/// Every pass writes once to every chunk that it reaches, as long as the chunk
/// stays, and every target ends with the writes of nine passes.
#[test]
fn writes_are_made_once_through_evictions() {
    let mut passes = DecorationPasses::new();
    let mut written: Vec<((i32, i32), (i32, i32))> = Vec::new();
    for k in 0..300 {
        let x = (k * 7) % 5;
        let z = (k * 3) % 4;
        for pass in passes.claim(x, z) {
            for chunk in pass.chunks {
                assert!(!written.contains(&(pass.center, chunk)));
                written.push((pass.center, chunk));
            }
        }
        let on_target = written.iter().filter(|write| write.1 == (x, z)).count();
        assert_eq!(on_target, 9);
        let gone = ((k * 11) % 6, (k * 5) % 5);
        passes.forget(&vec![gone]);
        written.retain(|write| write.1 != gone);
    }
}

#[test]
fn later_targets_do_not_write_to_a_decorated_one() {
    let mut passes = DecorationPasses::new();
    passes.claim(0, 0);
    for x in -4..=4 {
        for z in -4..=4 {
            for pass in passes.claim(x, z) {
                assert!(!pass.chunks.contains(&(0, 0)));
            }
        }
    }
}

#[test]
fn passes_run_up_to_the_edge() {
    let mut passes = DecorationPasses::new();
    let due = passes.claim(i32::MIN + 3, i32::MAX - 3);
    assert_eq!(due.len(), 9);
    assert_eq!(due[0].chunks[0], (i32::MIN + 1, i32::MAX - 5));
    assert_eq!(due[8].chunks[8], (i32::MIN + 5, i32::MAX - 1));
}
