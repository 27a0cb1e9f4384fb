//! The persistent chunk holders of one world.
//!
//! Decoration writes across chunk borders, so the chunks around a target must
//! outlive the call that generated them. [`HolderCache`] keeps one holder per
//! chunk position, the order in which the holders were created, and one mutex
//! per position that serializes the generation of that chunk. The cache is
//! bounded: when it has grown past a threshold, the holders that were created
//! first leave it.
use std::collections::VecDeque;
use std::sync::Arc;

use rustc_hash::FxHashMap;
use vstd::prelude::*;
use vstd::seq_lib::seq_to_set_is_finite;
use vstd::set_lib::{lemma_len_subset, lemma_len_union};

use crate::neighborhood::{
    area, area_fits, area_positions, comes_before, in_area, lemma_area_ascends,
    lemma_area_is_the_square, lemma_area_sizes, lemma_filter_ascends, FEATURE_RADIUS, PASS_RADIUS,
};
use crate::position_maps::{map_get, map_insert, map_len, map_remove};

verus! {

/// Number of holders above which a call evicts before it generates.
pub const EVICTION_THRESHOLD: usize = 10_000;

/// Number of holders that an eviction leaves.
pub const EVICTION_TARGET: usize = 5_000;

/// What a [`HolderCache`] holds.
#[verifier::ext_equal]
pub struct HolderState<H, M> {
    /// The holder of each position.
    pub holders: Map<(i32, i32), H>,
    /// The positions in the order in which their holders were created.
    pub order: Seq<(i32, i32)>,
    /// The generation mutex of each position that has one.
    pub mutexes: Map<(i32, i32), M>,
}

impl<H, M> HolderState<H, M> {
    /// `order` lists every holder once and nothing else, and only positions
    /// with a holder have a mutex.
    pub open spec fn wf(self) -> bool {
        &&& self.order.no_duplicates()
        &&& self.order.to_set() == self.holders.dom()
        &&& self.mutexes.dom().subset_of(self.holders.dom())
    }

    /// How many positions leave the front of `order` in an eviction: as many as
    /// it takes until no more than [`EVICTION_TARGET`] holders are left, or all.
    pub open spec fn eviction_count(holders: Map<(i32, i32), H>, order: Seq<(i32, i32)>) -> nat
        decreases order.len(),
    {
        if holders.dom().len() <= EVICTION_TARGET || order.len() == 0 {
            0
        } else {
            1 + Self::eviction_count(holders.remove(order[0]), order.drop_first())
        }
    }

    /// The state without the holders of the first `count` positions of `order`,
    /// without these positions, and without the mutexes of the holders that left.
    pub open spec fn without_oldest(self, count: nat) -> Self {
        let oldest = self.order.take(count as int).to_set();
        HolderState {
            holders: self.holders.remove_keys(oldest),
            order: self.order.skip(count as int),
            mutexes: self.mutexes.remove_keys(oldest.intersect(self.holders.dom())),
        }
    }

    /// The state after an eviction. Where the positions in `order` do not lead
    /// to enough holders, everything leaves.
    pub open spec fn evicted(self) -> Self {
        let drained = self.without_oldest(Self::eviction_count(self.holders, self.order));
        if drained.holders.dom().len() > EVICTION_THRESHOLD {
            HolderState { holders: Map::empty(), order: Seq::empty(), mutexes: Map::empty() }
        } else {
            drained
        }
    }

    /// What leaves in an eviction: the positions at the front of `order`, or
    /// everything, for which `None` stands.
    pub open spec fn leaving(self) -> Option<Seq<(i32, i32)>> {
        let count = Self::eviction_count(self.holders, self.order);
        if self.without_oldest(count).holders.dom().len() > EVICTION_THRESHOLD {
            None
        } else {
            Some(self.order.take(count as int))
        }
    }

    /// The positions of the neighborhood of a chunk that have no holder yet, in
    /// the order of [`area`].
    pub open spec fn missing(self, chunk_x: i32, chunk_z: i32) -> Seq<(i32, i32)> {
        area(chunk_x, chunk_z, FEATURE_RADIUS as int).filter(
            |pos: (i32, i32)| !self.holders.contains_key(pos),
        )
    }

    /// `after` has, besides the holders of this state, one for every position of
    /// the neighborhood of a chunk: the holders there were stay, and the new ones
    /// stand at the end of `order`. Nothing is said of the mutexes.
    pub open spec fn acquires_holders(self, after: Self, chunk_x: i32, chunk_z: i32) -> bool {
        &&& after.holders.dom() == self.holders.dom().union(
            area(chunk_x, chunk_z, FEATURE_RADIUS as int).to_set(),
        )
        &&& forall|pos: (i32, i32)| #[trigger]
            self.holders.contains_key(pos) ==> after.holders[pos] == self.holders[pos]
        &&& after.order == self.order + self.missing(chunk_x, chunk_z)
    }

    /// `after` is this state with a holder for every position of the
    /// neighborhood of a chunk.
    pub open spec fn acquires(self, after: Self, chunk_x: i32, chunk_z: i32) -> bool {
        &&& self.acquires_holders(after, chunk_x, chunk_z)
        &&& after.mutexes == self.mutexes
    }
}

/// What left a [`HolderCache`] in an eviction.
#[derive(Debug, PartialEq, Eq)]
pub enum Evicted {
    /// The positions that were listed first, in the order in which their holders
    /// were created. None of them has a holder any more.
    Oldest(Vec<(i32, i32)>),
    /// Every position: none has a holder any more.
    Everything,
}

impl View for Evicted {
    type V = Option<Seq<(i32, i32)>>;

    open spec fn view(&self) -> Option<Seq<(i32, i32)>> {
        match self {
            Evicted::Oldest(gone) => Some(gone@),
            Evicted::Everything => None,
        }
    }
}

/// Holders, creation order and generation mutexes.
pub struct HolderCache<H, M> {
    holders: FxHashMap<(i32, i32), Arc<H>>,
    order: VecDeque<(i32, i32)>,
    mutexes: FxHashMap<(i32, i32), Arc<M>>,
}

impl<H, M> View for HolderCache<H, M> {
    type V = HolderState<Arc<H>, Arc<M>>;

    closed spec fn view(&self) -> HolderState<Arc<H>, Arc<M>> {
        HolderState { holders: self.holders@, order: self.order@, mutexes: self.mutexes@ }
    }
}

impl<H, M> HolderState<H, M> {
    /// One more position at the front of `order` leaves.
    proof fn lemma_without_one_more(self, count: nat)
        requires
            count < self.order.len(),
        ensures
            ({
                let before = self.without_oldest(count);
                let pos = self.order[count as int];
                let after = self.without_oldest(count + 1);
                &&& before.order.len() > 0
                &&& before.order[0] == pos
                &&& after.order == before.order.drop_first()
                &&& after.holders == before.holders.remove(pos)
                &&& after.mutexes == if before.holders.contains_key(pos) {
                    before.mutexes.remove(pos)
                } else {
                    before.mutexes
                }
            }),
    {
        let before = self.without_oldest(count);
        let pos = self.order[count as int];
        let after = self.without_oldest(count + 1);
        let some = self.order.take(count as int);
        let more = self.order.take((count + 1) as int);
        assert(more =~= some.push(pos));
        assert(more.to_set() =~= some.to_set().insert(pos)) by {
            assert forall|key: (i32, i32)| #[trigger]
                more.to_set().contains(key) <==> some.to_set().insert(pos).contains(key) by {
                if some.contains(key) {
                    let i = choose|i: int| 0 <= i < some.len() && some[i] == key;
                    assert(more[i] == key);
                }
                if key == pos {
                    assert(more[count as int] == key);
                }
            }
        }
        assert(after.order =~= before.order.drop_first());
        assert(after.holders =~= before.holders.remove(pos));
        if before.holders.contains_key(pos) {
            assert(after.mutexes =~= before.mutexes.remove(pos));
        } else {
            assert(after.mutexes =~= before.mutexes);
        }
    }
}

impl<H, M> HolderCache<H, M> {
    /// A cache without holders.
    pub fn new() -> (cache: Self)
        ensures
            cache@.holders == Map::<(i32, i32), Arc<H>>::empty(),
            cache@.order == Seq::<(i32, i32)>::empty(),
            cache@.mutexes == Map::<(i32, i32), Arc<M>>::empty(),
            cache@.wf(),
    {
        let cache = HolderCache {
            holders: FxHashMap::default(),
            order: VecDeque::new(),
            mutexes: FxHashMap::default(),
        };
        assert(cache@.order.to_set() =~= cache@.holders.dom());
        cache
    }

    /// Whether there are so many holders that some should be evicted.
    pub fn needs_eviction(&self) -> (needed: bool)
        ensures
            needed == (self@.holders.dom().len() > EVICTION_THRESHOLD),
    {
        map_len(&self.holders) > EVICTION_THRESHOLD
    }

    /// Evicts the holders that were created first, and their mutexes, until no
    /// more than half the threshold is left, and returns what left.
    ///
    /// The caller sees to it that nobody uses a holder or a mutex meanwhile, and
    /// that what was written to the chunks that left is forgotten.
    pub fn evict(&mut self) -> (evicted: Evicted)
        ensures
            final(self)@ == old(self)@.evicted(),
            evicted@ == old(self)@.leaving(),
            old(self)@.wf() ==> final(self)@.wf(),
    {
        let ghost start = self@;
        let ghost mut count: nat = 0;
        let mut gone: Vec<(i32, i32)> = Vec::new();
        assert(start.without_oldest(0) =~= start) by {
            assert(start.order.take(0).to_set() =~= Set::empty());
        }
        loop
            invariant_except_break
                HolderState::<Arc<H>, Arc<M>>::eviction_count(start.holders, start.order) == count
                    + HolderState::<Arc<H>, Arc<M>>::eviction_count(self@.holders, self@.order),
            invariant
                count <= start.order.len(),
                self@ == start.without_oldest(count),
                gone@ == start.order.take(count as int),
            ensures
                HolderState::<Arc<H>, Arc<M>>::eviction_count(start.holders, start.order) == count,
            decreases start.order.len() - count,
        {
            if map_len(&self.holders) <= EVICTION_TARGET {
                break;
            }
            match self.order.pop_front() {
                None => {
                    break;
                },
                Some(pos) => {
                    proof {
                        start.lemma_without_one_more(count);
                    }
                    if map_remove(&mut self.holders, pos).is_some() {
                        map_remove(&mut self.mutexes, pos);
                    }
                    gone.push(pos);
                    proof {
                        count = count + 1;
                    }
                    assert(self@ =~= start.without_oldest(count));
                },
            }
        }
        proof {
            if start.wf() {
                start.lemma_eviction_keeps_the_newest();
            }
        }
        if map_len(&self.holders) > EVICTION_THRESHOLD {
            self.holders.clear();
            self.mutexes.clear();
            self.order.clear();
            Evicted::Everything
        } else {
            Evicted::Oldest(gone)
        }
    }

    /// The holders of the neighborhood of a chunk, with their positions, in the
    /// order of [`area`]. A position without a holder gets the one that `make`
    /// returns for it.
    pub fn acquire_neighborhood<F: Fn(i32, i32) -> H>(
        &mut self,
        chunk_x: i32,
        chunk_z: i32,
        make: F,
    ) -> (neighborhood: Vec<((i32, i32), Arc<H>)>)
        requires
            area_fits(chunk_x, chunk_z, FEATURE_RADIUS as int),
            forall|x: i32, z: i32|
                in_area(chunk_x, chunk_z, FEATURE_RADIUS as int, (x, z)) ==> #[trigger] make.requires(
                    (x, z),
                ),
        ensures
            old(self)@.acquires(final(self)@, chunk_x, chunk_z),
            forall|pos: (i32, i32)|
                #![trigger final(self)@.holders[pos]]
                in_area(chunk_x, chunk_z, FEATURE_RADIUS as int, pos)
                    && !old(self)@.holders.contains_key(pos) ==> make.ensures(
                    (pos.0, pos.1),
                    *final(self)@.holders[pos],
                ),
            neighborhood@.len() == area(chunk_x, chunk_z, FEATURE_RADIUS as int).len(),
            forall|i: int|
                #![trigger neighborhood@[i]]
                0 <= i < neighborhood@.len() ==> {
                    let pos = area(chunk_x, chunk_z, FEATURE_RADIUS as int)[i];
                    neighborhood@[i] == (pos, final(self)@.holders[pos])
                },
            old(self)@.wf() ==> final(self)@.wf(),
    {
        let ghost start = self@;
        let ghost lacks = |pos: (i32, i32)| !start.holders.contains_key(pos);
        let positions = area_positions(chunk_x, chunk_z, FEATURE_RADIUS);
        proof {
            lemma_area_is_the_square(chunk_x, chunk_z, FEATURE_RADIUS as int);
            assert(positions@.take(0).filter(lacks) =~= Seq::empty()) by {
                positions@.take(0).lemma_filter_len(lacks);
            }
            assert(self@.holders.dom() =~= start.holders.dom().union(positions@.take(0).to_set()));
        }
        let mut neighborhood: Vec<((i32, i32), Arc<H>)> = Vec::new();
        let mut i: usize = 0;
        while i < positions.len()
            invariant
                i <= positions@.len(),
                positions@ == area(chunk_x, chunk_z, FEATURE_RADIUS as int),
                positions@.no_duplicates(),
                forall|pos: (i32, i32)| #[trigger]
                    positions@.contains(pos) <==> in_area(
                        chunk_x,
                        chunk_z,
                        FEATURE_RADIUS as int,
                        pos,
                    ),
                forall|x: i32, z: i32|
                    in_area(chunk_x, chunk_z, FEATURE_RADIUS as int, (x, z))
                        ==> #[trigger] make.requires((x, z)),
                lacks == (|pos: (i32, i32)| !start.holders.contains_key(pos)),
                self@.holders.dom() == start.holders.dom().union(
                    positions@.take(i as int).to_set(),
                ),
                forall|pos: (i32, i32)| #[trigger]
                    start.holders.contains_key(pos) ==> self@.holders[pos] == start.holders[pos],
                forall|pos: (i32, i32)|
                    #![trigger self@.holders[pos]]
                    self@.holders.contains_key(pos) && !start.holders.contains_key(pos)
                        ==> make.ensures((pos.0, pos.1), *self@.holders[pos]),
                self@.order == start.order + positions@.take(i as int).filter(lacks),
                self@.mutexes == start.mutexes,
                start.wf() ==> self@.wf(),
                neighborhood@.len() == i,
                forall|j: int|
                    #![trigger neighborhood@[j]]
                    0 <= j < i ==> neighborhood@[j] == (
                        positions@[j],
                        self@.holders[positions@[j]],
                    ),
            decreases positions@.len() - i,
        {
            let ghost before = self@;
            let ghost seen = positions@.take(i as int);
            let pos = positions[i];
            proof {
                assert(positions@.contains(pos));
                assert(positions@.take(i + 1) =~= seen.push(pos));
                seen.lemma_filter_push(pos, lacks);
                seen.lemma_push_to_set_commute(pos);
                assert forall|j: int| 0 <= j < seen.len() implies seen[j] != pos by {
                    assert(seen[j] == positions@[j]);
                }
                assert(!seen.contains(pos));
                assert(before.holders.contains_key(pos) <==> start.holders.contains_key(pos));
            }
            let existing: Option<Arc<H>> = match map_get(&self.holders, pos) {
                Some(holder) => Some(Arc::clone(holder)),
                None => None,
            };
            let holder = match existing {
                Some(holder) => holder,
                None => {
                    let holder = Arc::new(make(pos.0, pos.1));
                    map_insert(&mut self.holders, pos, Arc::clone(&holder));
                    self.order.push_back(pos);
                    holder
                },
            };
            neighborhood.push((pos, holder));
            i = i + 1;
            proof {
                assert(self@.holders.dom() =~= start.holders.dom().union(
                    positions@.take(i as int).to_set(),
                ));
                if lacks(pos) {
                    assert(self@.order =~= start.order + positions@.take(i as int).filter(lacks));
                    before.order.lemma_push_to_set_commute(pos);
                    if start.wf() {
                        assert(!before.order.to_set().contains(pos));
                        assert(self@.order.no_duplicates());
                        assert(self@.order.to_set() =~= self@.holders.dom());
                    }
                }
                assert forall|j: int| 0 <= j < i implies #[trigger] neighborhood@[j] == (
                    positions@[j],
                    self@.holders[positions@[j]],
                ) by {
                    if j < i - 1 {
                        assert(positions@[j] != pos);
                    }
                }
            }
        }
        proof {
            assert(positions@.take(i as int) =~= positions@);
            assert forall|pos: (i32, i32)|
                in_area(chunk_x, chunk_z, FEATURE_RADIUS as int, pos) implies self@.holders.contains_key(pos)
            by {
                assert(positions@.contains(pos));
                assert(positions@.to_set().contains(pos));
            }
        }
        neighborhood
    }

    /// The mutex that serializes the generation of the chunk at `pos`. A
    /// position without a mutex gets the one that `make` returns.
    pub fn generation_mutex<F: FnOnce() -> M>(&mut self, pos: (i32, i32), make: F) -> (mutex: Arc<M>)
        requires
            make.requires(()),
        ensures
            old(self)@.mutexes.contains_key(pos) ==> mutex == old(self)@.mutexes[pos],
            !old(self)@.mutexes.contains_key(pos) ==> make.ensures((), *mutex),
            final(self)@.mutexes == old(self)@.mutexes.insert(pos, mutex),
            final(self)@.holders == old(self)@.holders,
            final(self)@.order == old(self)@.order,
            old(self)@.wf() && old(self)@.holders.contains_key(pos) ==> final(self)@.wf(),
    {
        let existing: Option<Arc<M>> = match map_get(&self.mutexes, pos) {
            Some(mutex) => Some(Arc::clone(mutex)),
            None => None,
        };
        match existing {
            Some(mutex) => {
                assert(self@.mutexes =~= old(self)@.mutexes.insert(pos, mutex));
                mutex
            },
            None => {
                let mutex = Arc::new(make());
                map_insert(&mut self.mutexes, pos, Arc::clone(&mutex));
                mutex
            },
        }
    }
}

impl<H, M> HolderState<H, M> {
    /// Each holder is listed once, so there are as many positions in `order` as
    /// holders.
    pub proof fn lemma_order_counts_holders(self)
        requires
            self.wf(),
        ensures
            self.holders.dom().finite(),
            self.order.len() == self.holders.dom().len(),
    {
        seq_to_set_is_finite(self.order);
        self.order.unique_seq_to_set();
    }

    /// The mutex map never outgrows the holder map.
    pub proof fn lemma_mutexes_do_not_outgrow_holders(self)
        requires
            self.wf(),
        ensures
            self.mutexes.dom().finite(),
            self.mutexes.dom().len() <= self.holders.dom().len(),
    {
        self.lemma_order_counts_holders();
        lemma_len_subset(self.mutexes.dom(), self.holders.dom());
    }

    /// In a well-formed state an eviction takes the surplus from the front of
    /// `order`.
    proof fn lemma_eviction_count(holders: Map<(i32, i32), H>, order: Seq<(i32, i32)>)
        requires
            order.no_duplicates(),
            order.to_set() == holders.dom(),
        ensures
            Self::eviction_count(holders, order) == if order.len() <= EVICTION_TARGET {
                0
            } else {
                order.len() - EVICTION_TARGET
            },
        decreases order.len(),
    {
        order.unique_seq_to_set();
        if order.len() > EVICTION_TARGET {
            let rest = order.drop_first();
            assert(rest.to_set() =~= holders.remove(order[0]).dom()) by {
                assert forall|pos: (i32, i32)| #[trigger]
                    rest.to_set().contains(pos) <==> holders.remove(order[0]).dom().contains(pos) by {
                    if rest.contains(pos) {
                        let i = choose|i: int| 0 <= i < rest.len() && rest[i] == pos;
                        assert(order[i + 1] == pos);
                        assert(order.to_set().contains(pos));
                    }
                    if holders.remove(order[0]).dom().contains(pos) {
                        assert(order.to_set().contains(pos));
                        let i = choose|i: int| 0 <= i < order.len() && order[i] == pos;
                        assert(rest[i - 1] == pos);
                    }
                }
            }
            Self::lemma_eviction_count(holders.remove(order[0]), rest);
        }
    }

    /// An eviction keeps the newest [`EVICTION_TARGET`] holders, in their
    /// order, and exactly their mutexes. Where there are no more than that, it
    /// changes nothing. It never has to let everything go.
    pub proof fn lemma_eviction_keeps_the_newest(self)
        requires
            self.wf(),
        ensures
            self.evicted().wf(),
            self.leaving() is Some,
            self.order.len() <= EVICTION_TARGET ==> self.evicted() == self,
            self.order.len() > EVICTION_TARGET ==> {
                let kept = self.order.skip(self.order.len() - EVICTION_TARGET);
                &&& kept.len() == EVICTION_TARGET
                &&& self.evicted().order == kept
                &&& self.evicted().holders == self.holders.restrict(kept.to_set())
                &&& self.evicted().mutexes == self.mutexes.restrict(kept.to_set())
            },
    {
        self.lemma_order_counts_holders();
        Self::lemma_eviction_count(self.holders, self.order);
        let count = Self::eviction_count(self.holders, self.order);
        let left = self.order.take(count as int);
        let kept = self.order.skip(count as int);
        let drained = self.without_oldest(count);
        assert forall|pos: (i32, i32)| #[trigger] self.holders.contains_key(pos) implies (kept.contains(
            pos,
        ) <==> !left.contains(pos)) by {
            assert(self.order.to_set().contains(pos));
            let i = choose|i: int| 0 <= i < self.order.len() && self.order[i] == pos;
            if i < count {
                assert(left[i] == pos);
                if kept.contains(pos) {
                    let j = choose|j: int| 0 <= j < kept.len() && kept[j] == pos;
                    assert(self.order[j + count] == pos);
                }
            } else {
                assert(kept[i - count] == pos);
                if left.contains(pos) {
                    let j = choose|j: int| 0 <= j < left.len() && left[j] == pos;
                    assert(self.order[j] == pos);
                }
            }
        }
        assert forall|pos: (i32, i32)| #[trigger] kept.contains(pos) implies self.holders.contains_key(
            pos,
        ) by {
            let j = choose|j: int| 0 <= j < kept.len() && kept[j] == pos;
            assert(self.order[j + count] == pos);
            assert(self.order.to_set().contains(pos));
        }
        assert(drained.holders =~= self.holders.restrict(kept.to_set()));
        assert(drained.mutexes =~= self.mutexes.restrict(kept.to_set()));
        assert(drained.holders.dom() =~= kept.to_set());
        assert(kept.no_duplicates());
        drained.lemma_order_counts_holders();
        if count == 0 {
            assert(kept =~= self.order);
            assert(drained =~= self);
        }
    }

    /// What leaves in an eviction is listed by position, and the positions are
    /// exactly those whose holders leave.
    pub proof fn lemma_leaving_positions(self)
        requires
            self.wf(),
        ensures
            self.leaving() is Some,
            self.leaving()->0.to_set() == self.holders.dom().difference(
                self.evicted().holders.dom(),
            ),
    {
        self.lemma_eviction_keeps_the_newest();
        Self::lemma_eviction_count(self.holders, self.order);
        let count = Self::eviction_count(self.holders, self.order);
        let gone = self.order.take(count as int);
        let drained = self.without_oldest(count);
        assert forall|pos: (i32, i32)| #[trigger] gone.to_set().contains(pos) implies self.holders.contains_key(
            pos,
        ) by {
            let i = choose|i: int| 0 <= i < gone.len() && gone[i] == pos;
            assert(self.order[i] == pos);
            assert(self.order.to_set().contains(pos));
        }
        assert(gone.to_set() =~= self.holders.dom().difference(drained.holders.dom()));
    }

    /// Where every call evicts before it acquires a neighborhood, the cache
    /// never holds more than the threshold and one neighborhood.
    pub proof fn lemma_cache_is_bounded(self, after: Self, chunk_x: i32, chunk_z: i32)
        requires
            self.wf(),
            area_fits(chunk_x, chunk_z, FEATURE_RADIUS as int),
            ({
                let kept = if self.holders.dom().len() > EVICTION_THRESHOLD {
                    self.evicted()
                } else {
                    self
                };
                kept.acquires(after, chunk_x, chunk_z)
            }),
        ensures
            after.holders.dom().finite(),
            after.holders.dom().len() <= EVICTION_THRESHOLD + 7 * 7,
    {
        let kept = if self.holders.dom().len() > EVICTION_THRESHOLD {
            self.evicted()
        } else {
            self
        };
        self.lemma_eviction_keeps_the_newest();
        self.lemma_order_counts_holders();
        kept.lemma_order_counts_holders();
        let positions = area(chunk_x, chunk_z, FEATURE_RADIUS as int);
        lemma_area_is_the_square(chunk_x, chunk_z, FEATURE_RADIUS as int);
        seq_to_set_is_finite(positions);
        positions.unique_seq_to_set();
        lemma_area_sizes(chunk_x, chunk_z);
        lemma_len_union(kept.holders.dom(), positions.to_set());
    }

    /// A second call for the same chunk finds every holder in place: it creates
    /// nothing and changes nothing.
    pub proof fn lemma_acquiring_again_changes_nothing(
        self,
        between: Self,
        after: Self,
        chunk_x: i32,
        chunk_z: i32,
    )
        requires
            self.acquires(between, chunk_x, chunk_z),
            between.acquires(after, chunk_x, chunk_z),
        ensures
            between.missing(chunk_x, chunk_z).len() == 0,
            after == between,
    {
        let positions = area(chunk_x, chunk_z, FEATURE_RADIUS as int);
        let lacks = |pos: (i32, i32)| !between.holders.contains_key(pos);
        assert forall|i: int| 0 <= i < positions.len() implies !lacks(#[trigger] positions[i]) by {
            assert(positions.to_set().contains(positions[i]));
        }
        positions.lemma_all_neg_filter_empty(lacks);
        assert(after.order =~= between.order);
        assert(after.holders.dom() =~= between.holders.dom());
        assert(after.holders =~= between.holders);
    }

    /// After a neighborhood was acquired, every chunk within reach of a
    /// decoration pass of the target has a holder: each pass of the
    /// [`PASS_RADIUS`] area reads and writes at most `reach` chunks away from
    /// its center, and the neighborhood covers a reach of up to
    /// `FEATURE_RADIUS - PASS_RADIUS`.
    pub proof fn lemma_passes_find_their_holders(
        self,
        after: Self,
        chunk_x: i32,
        chunk_z: i32,
        center: (i32, i32),
        reach: int,
        pos: (i32, i32),
    )
        requires
            area_fits(chunk_x, chunk_z, FEATURE_RADIUS as int),
            self.acquires(after, chunk_x, chunk_z),
            in_area(chunk_x, chunk_z, PASS_RADIUS as int, center),
            0 <= reach <= FEATURE_RADIUS - PASS_RADIUS,
            in_area(center.0, center.1, reach, pos),
        ensures
            after.holders.contains_key(pos),
    {
        lemma_area_is_the_square(chunk_x, chunk_z, FEATURE_RADIUS as int);
        let positions = area(chunk_x, chunk_z, FEATURE_RADIUS as int);
        assert(positions.contains(pos));
        assert(positions.to_set().contains(pos));
    }
}

impl<H, M> HolderState<H, M> {
    /// The positions without a holder, by distance: exactly those no further than
    /// three chunks away in both directions that had none, each once, in
    /// ascending order.
    pub proof fn lemma_missing_by_distance(self, chunk_x: i32, chunk_z: i32)
        requires
            i32::MIN + 3 <= chunk_x <= i32::MAX - 3,
            i32::MIN + 3 <= chunk_z <= i32::MAX - 3,
        ensures
            forall|pos: (i32, i32)| #[trigger]
                self.missing(chunk_x, chunk_z).contains(pos) <==> -3 <= pos.0 - chunk_x <= 3 && -3
                    <= pos.1 - chunk_z <= 3 && !self.holders.contains_key(pos),
            forall|i: int, j: int|
                0 <= i < j < self.missing(chunk_x, chunk_z).len() ==> comes_before(
                    #[trigger] self.missing(chunk_x, chunk_z)[i],
                    #[trigger] self.missing(chunk_x, chunk_z)[j],
                ),
    {
        let positions = area(chunk_x, chunk_z, FEATURE_RADIUS as int);
        let lacks = |pos: (i32, i32)| !self.holders.contains_key(pos);
        let missing = self.missing(chunk_x, chunk_z);
        lemma_area_is_the_square(chunk_x, chunk_z, FEATURE_RADIUS as int);
        lemma_area_ascends(chunk_x, chunk_z, FEATURE_RADIUS as int);
        lemma_filter_ascends(positions, lacks);
        assert forall|pos: (i32, i32)| #[trigger]
            missing.contains(pos) <==> positions.contains(pos) && lacks(pos) by {
            if missing.contains(pos) {
                let i = choose|i: int| 0 <= i < missing.len() && missing[i] == pos;
                positions.lemma_filter_pred(lacks, i);
                positions.lemma_filter_contains_rev(lacks, pos);
            }
            if positions.contains(pos) && lacks(pos) {
                let i = choose|i: int| 0 <= i < positions.len() && positions[i] == pos;
                positions.lemma_filter_contains(lacks, i);
            }
        }
    }

    /// What a request makes of the cache, by distance: every position no further
    /// than three chunks away has a holder, as has every position that had one,
    /// and no other; no holder and no mutex changes. The order grows at its end,
    /// by the positions of the new holders, each once and in ascending order.
    pub proof fn lemma_acquired_by_distance(self, after: Self, chunk_x: i32, chunk_z: i32)
        requires
            i32::MIN + 3 <= chunk_x <= i32::MAX - 3,
            i32::MIN + 3 <= chunk_z <= i32::MAX - 3,
            self.acquires(after, chunk_x, chunk_z),
        ensures
            forall|pos: (i32, i32)| #[trigger]
                after.holders.contains_key(pos) <==> self.holders.contains_key(pos) || (-3 <= pos.0
                    - chunk_x <= 3 && -3 <= pos.1 - chunk_z <= 3),
            forall|pos: (i32, i32)| #[trigger]
                self.holders.contains_key(pos) ==> after.holders[pos] == self.holders[pos],
            after.mutexes == self.mutexes,
            after.order.len() >= self.order.len(),
            after.order.take(self.order.len() as int) == self.order,
            forall|pos: (i32, i32)| #[trigger]
                after.order.skip(self.order.len() as int).contains(pos) <==> after.holders.contains_key(
                    pos,
                ) && !self.holders.contains_key(pos),
            forall|i: int, j: int|
                self.order.len() <= i < j < after.order.len() ==> comes_before(
                    #[trigger] after.order[i],
                    #[trigger] after.order[j],
                ),
    {
        let positions = area(chunk_x, chunk_z, FEATURE_RADIUS as int);
        let missing = self.missing(chunk_x, chunk_z);
        lemma_area_is_the_square(chunk_x, chunk_z, FEATURE_RADIUS as int);
        self.lemma_missing_by_distance(chunk_x, chunk_z);
        assert forall|pos: (i32, i32)| #[trigger]
            after.holders.contains_key(pos) <==> self.holders.contains_key(pos) || (-3 <= pos.0
                - chunk_x <= 3 && -3 <= pos.1 - chunk_z <= 3) by {
            assert(positions.to_set().contains(pos) <==> positions.contains(pos));
            assert(after.holders.dom().contains(pos) <==> self.holders.dom().contains(pos)
                || positions.to_set().contains(pos));
        }
        assert(after.order.take(self.order.len() as int) =~= self.order);
        assert(after.order.skip(self.order.len() as int) =~= missing);
        assert forall|i: int, j: int|
            self.order.len() <= i < j < after.order.len() implies comes_before(
            #[trigger] after.order[i],
            #[trigger] after.order[j],
        ) by {
            assert(comes_before(missing[i - self.order.len()], missing[j - self.order.len()]));
        }
    }

    /// How far an eviction goes, in any state: it takes positions from the front
    /// of `order` until no more than 5000 holders are left or `order` is used up,
    /// and not one position more.
    proof fn lemma_eviction_goes_no_further(
        holders: Map<(i32, i32), H>,
        order: Seq<(i32, i32)>,
    )
        ensures
            Self::eviction_count(holders, order) <= order.len(),
            Self::eviction_count(holders, order) == order.len() || holders.remove_keys(
                order.take(Self::eviction_count(holders, order) as int).to_set(),
            ).dom().len() <= 5000,
            forall|k: int|
                0 <= k < Self::eviction_count(holders, order) ==> #[trigger] holders.remove_keys(
                    order.take(k).to_set(),
                ).dom().len() > 5000,
        decreases order.len(),
    {
        let count = Self::eviction_count(holders, order);
        assert(order.take(0).to_set() =~= Set::empty());
        assert(holders.remove_keys(order.take(0).to_set()) =~= holders);
        if count > 0 {
            let fewer = holders.remove(order[0]);
            let rest = order.drop_first();
            Self::lemma_eviction_goes_no_further(fewer, rest);
            assert forall|k: int| 0 <= k <= rest.len() implies #[trigger] fewer.remove_keys(
                rest.take(k).to_set(),
            ) == holders.remove_keys(order.take(k + 1).to_set()) by {
                let some = rest.take(k);
                let more = order.take(k + 1);
                assert forall|pos: (i32, i32)| #[trigger]
                    more.to_set().contains(pos) <==> pos == order[0] || some.to_set().contains(pos) by {
                    if more.contains(pos) {
                        let i = choose|i: int| 0 <= i < more.len() && more[i] == pos;
                        if i > 0 {
                            assert(some[i - 1] == pos);
                        }
                    }
                    if some.contains(pos) {
                        let i = choose|i: int| 0 <= i < some.len() && some[i] == pos;
                        assert(more[i + 1] == pos);
                    }
                    if pos == order[0] {
                        assert(more[0] == pos);
                    }
                }
                assert(fewer.remove_keys(some.to_set()) =~= holders.remove_keys(more.to_set()));
            }
            assert(fewer.remove_keys(rest.take(count - 1).to_set()) == holders.remove_keys(
                order.take(count as int).to_set(),
            ));
            assert forall|k: int| 0 <= k < count implies #[trigger] holders.remove_keys(
                order.take(k).to_set(),
            ).dom().len() > 5000 by {
                if k > 0 {
                    assert(fewer.remove_keys(rest.take(k - 1).to_set()).dom().len() > 5000);
                }
            }
        }
    }

    /// What an eviction takes, in any state: the positions at the front of
    /// `order`, with the holders that are there and the mutexes of these holders.
    /// It stops as soon as no more than 5000 holders are left, and where `order`
    /// is used up. Where that leaves more than 10000 holders, everything goes.
    pub proof fn lemma_what_an_eviction_takes(self)
        ensures
            match self.leaving() {
                Some(gone) => {
                    let after = self.evicted();
                    &&& gone.len() <= self.order.len()
                    &&& gone == self.order.take(gone.len() as int)
                    &&& after.order == self.order.skip(gone.len() as int)
                    &&& forall|pos: (i32, i32)| #[trigger]
                        after.holders.contains_key(pos) <==> self.holders.contains_key(pos)
                            && !gone.contains(pos)
                    &&& forall|pos: (i32, i32)| #[trigger]
                        after.holders.contains_key(pos) ==> after.holders[pos] == self.holders[pos]
                    &&& forall|pos: (i32, i32)| #[trigger]
                        after.mutexes.contains_key(pos) <==> self.mutexes.contains_key(pos) && !(
                        gone.contains(pos) && self.holders.contains_key(pos))
                    &&& forall|pos: (i32, i32)| #[trigger]
                        after.mutexes.contains_key(pos) ==> after.mutexes[pos] == self.mutexes[pos]
                    &&& after.holders.dom().len() <= 10_000
                    &&& after.holders.dom().len() <= 5000 || gone.len() == self.order.len()
                    &&& forall|k: int|
                        0 <= k < gone.len() ==> #[trigger] self.holders.remove_keys(
                            self.order.take(k).to_set(),
                        ).dom().len() > 5000
                },
                None => {
                    &&& self.evicted().holders == Map::<(i32, i32), H>::empty()
                    &&& self.evicted().order == Seq::<(i32, i32)>::empty()
                    &&& self.evicted().mutexes == Map::<(i32, i32), M>::empty()
                    &&& self.holders.remove_keys(self.order.to_set()).dom().len() > 10_000
                },
            },
    {
        Self::lemma_eviction_goes_no_further(self.holders, self.order);
        let count = Self::eviction_count(self.holders, self.order);
        let gone = self.order.take(count as int);
        assert forall|pos: (i32, i32)| #[trigger] gone.to_set().contains(pos) <==> gone.contains(
            pos,
        ) by {}
        if self.leaving() is None {
            assert(self.order.take(self.order.len() as int) =~= self.order);
        } else {
            let after = self.evicted();
            assert forall|pos: (i32, i32)| #[trigger]
                after.holders.contains_key(pos) <==> self.holders.contains_key(pos)
                    && !gone.contains(pos) by {
                assert(gone.to_set().contains(pos) <==> gone.contains(pos));
            }
            assert forall|pos: (i32, i32)| #[trigger]
                after.mutexes.contains_key(pos) <==> self.mutexes.contains_key(pos) && !(
                gone.contains(pos) && self.holders.contains_key(pos)) by {
                assert(gone.to_set().contains(pos) <==> gone.contains(pos));
            }
        }
    }

    /// In a well-formed state with more than 5000 holders an eviction takes all
    /// but the last 5000 positions of `order`, and it takes none where there are
    /// no more.
    pub proof fn lemma_eviction_leaves_five_thousand(self)
        requires
            self.wf(),
        ensures
            self.order.len() > 5000 ==> self.leaving() == Some(
                self.order.take(self.order.len() - 5000),
            ) && self.evicted().order.len() == 5000 && self.evicted().holders.dom().len() == 5000,
            self.order.len() <= 5000 ==> self.leaving() == Some(Seq::<(i32, i32)>::empty()),
    {
        self.lemma_eviction_keeps_the_newest();
        Self::lemma_eviction_count(self.holders, self.order);
        self.evicted().lemma_order_counts_holders();
        assert(self.order.take(0) =~= Seq::empty());
    }
}

/// The limits of the cache: an eviction comes above 10000 holders and leaves half
/// as many.
pub proof fn lemma_cache_limits()
    ensures
        EVICTION_THRESHOLD == 10_000,
        EVICTION_THRESHOLD == 2 * EVICTION_TARGET,
{
}

/// What an eviction reports is the list of positions in it, or that everything
/// left.
pub proof fn lemma_eviction_report(gone: Vec<(i32, i32)>)
    ensures
        (Evicted::Oldest(gone))@ == Some(gone@),
        (Evicted::Everything)@ is None,
{
}

} // verus!
