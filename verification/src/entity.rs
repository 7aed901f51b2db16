use vstd::prelude::*;

verus! {

use std::collections::HashMap;

broadcast use vstd::std_specs::hash::group_hash_axioms;

/// Unique identifier for an entity (a 64-bit integer).
///
/// Obtained from `Scene::spawn` and can be stored for future reference.
/// Since `2^64` is such a large number, entities never need to be
/// recycled.
#[derive(Debug, Copy, Clone, Eq, PartialEq, Structural, Hash)]
pub struct Entity {
    /// the raw identifier
    pub id: u64,
}

impl Entity {
    /// get this entity's unique identifier
    pub fn id(&self) -> (r: u64)
        ensures
            r == self.id,
    {
        self.id
    }

    /// Rebuild an entity value from a stored identifier.
    pub fn from_id(id: u64) -> (r: Entity)
        ensures
            r.id == id,
    {
        Entity { id }
    }
}

/// The storage location of an entity's components: which archetype,
/// which chunk within it, and which slot within the chunk.
#[derive(Debug, Copy, Clone, Eq, PartialEq, Structural)]
pub struct EntityLocation {
    /// index of the archetype in the scene's archetype vector
    pub archetype: usize,
    /// index of the chunk within the archetype
    pub chunk: usize,
    /// slot within the chunk
    pub index: usize,
}

/// The reserved location that marks an absent entity. No real location
/// can carry this archetype index: archetypes are stored in a vector
/// whose indices stay strictly below it.
pub open spec fn null_loc() -> EntityLocation {
    EntityLocation { archetype: usize::MAX, chunk: 0, index: 0 }
}

impl EntityLocation {
    /// create a new entity location
    pub fn new(archetype: usize, chunk: usize, index: usize) -> (r: EntityLocation)
        ensures
            r == (EntityLocation { archetype, chunk, index }),
    {
        EntityLocation { archetype, chunk, index }
    }

    /// the reserved location that marks an absent entity
    pub fn null() -> (r: EntityLocation)
        ensures
            r == null_loc(),
    {
        EntityLocation { archetype: usize::MAX, chunk: 0, index: 0 }
    }

    /// does this location mark an absent entity?
    pub fn is_null(&self) -> (r: bool)
        ensures
            r == (*self == null_loc()),
    {
        self.archetype == usize::MAX && self.chunk == 0 && self.index == 0
    }

    /// get the archetype index part of this `EntityLocation`
    pub fn archetype(&self) -> (r: usize)
        ensures
            r == self.archetype,
    {
        self.archetype
    }

    /// get the chunk index part of this `EntityLocation`
    pub fn chunk(&self) -> (r: usize)
        ensures
            r == self.chunk,
    {
        self.chunk
    }

    /// get the slot index part of this `EntityLocation`
    pub fn index(&self) -> (r: usize)
        ensures
            r == self.index,
    {
        self.index
    }
}

/// Number of entity locations one directory bucket holds.
pub const BUCKET_SIZE: usize = 16;

/// One bucket of the entity directory: a fixed block of locations for
/// sixteen consecutive entity ids, plus a count of the non-null ones so
/// the bucket can be dropped when it empties.
#[derive(Debug)]
pub struct EntityMapChunk {
    /// one location per entity id in the bucket's id range
    pub slots: Vec<EntityLocation>,
    /// how many locations in `slots` are not null
    pub len: usize,
}

/// How many locations of `s` are not the null sentinel.
pub open spec fn count_nonnull(s: Seq<EntityLocation>) -> int
    decreases s.len(),
{
    if s.len() == 0 {
        0
    } else {
        count_nonnull(s.drop_last()) + if s.last() == null_loc() {
            0int
        } else {
            1int
        }
    }
}

/// A well-formed directory bucket.
pub open spec fn bucket_wf(b: EntityMapChunk) -> bool {
    &&& b.slots@.len() == 16
    &&& b.len == count_nonnull(b.slots@)
}

/// Structure that maps entity ids to their storage location in a
/// bucketed hash map: ids are grouped sixteen at a time, so entities
/// allocated in bursts share buckets.
#[derive(Debug)]
pub struct EntityMap {
    /// bucket-base id (a multiple of sixteen) to bucket
    pub chunks: HashMap<u64, EntityMapChunk>,
}

impl EntityMap {
    /// The directory invariant: every bucket key is a multiple of
    /// sixteen and every bucket is well-formed and non-empty.
    pub open spec fn wf(&self) -> bool {
        forall|k: u64| #[trigger]
            self.chunks@.contains_key(k) ==> k % 16 == 0 && bucket_wf(self.chunks@[k])
                && self.chunks@[k].len >= 1
    }

    /// The location recorded for entity id `e`, or null when absent.
    pub open spec fn spec_get(&self, e: u64) -> EntityLocation {
        let key = ((e / 16) * 16) as u64;
        if self.chunks@.contains_key(key) {
            self.chunks@[key].slots@[e as int % 16]
        } else {
            null_loc()
        }
    }

    /// The directory read as a mathematical map from live entity ids to
    /// their locations.
    pub open spec fn as_map(&self) -> Map<u64, EntityLocation> {
        Map::new(|e: u64| self.spec_get(e) != null_loc(), |e: u64| self.spec_get(e))
    }

    /// An empty directory.
    pub fn new() -> (r: EntityMap)
        ensures
            r.wf(),
            forall|e: u64| #[trigger] r.spec_get(e) == null_loc(),
    {
        EntityMap { chunks: HashMap::new() }
    }

    /// Insert a new (entity, location) pair into the directory, or
    /// silently overwrite an existing one.
    ///
    /// Directory round-trip: right after `insert(e, loc)`, `get(e)`
    /// returns exactly `loc`.
    pub fn insert(&mut self, e: Entity, loc: EntityLocation)
        requires
            old(self).wf(),
            loc != null_loc(),
        ensures
            final(self).wf(),
            final(self).spec_get(e.id) == loc,
            forall|e2: u64| #[trigger]
                final(self).spec_get(e2) == if e2 == e.id {
                    loc
                } else {
                    old(self).spec_get(e2)
                },
            final(self).as_map() == old(self).as_map().insert(e.id, loc),
    {
        let e_ind = (e.id % 16) as usize;
        let c_ind = e.id - (e.id % 16);
        proof {
            assert(e.id - e.id % 16 == (e.id / 16) * 16) by (nonlinear_arith);
            assert((e.id - e.id % 16) % 16 == 0) by (nonlinear_arith);
        }
        let r = self.chunks.get(&c_ind);
        match r {
            Some(bucket) => {
                let mut nb = copy_bucket(bucket);
                let ghost oldslots = nb.slots@;
                if nb.slots[e_ind].is_null() {
                    proof {
                        lemma_count_nonnull_le(nb.slots@, 16);
                        lemma_count_nonnull_at_least(nb.slots@);
                    }
                    nb.len = nb.len + 1;
                }
                nb.slots[e_ind] = loc;
                proof {
                    lemma_count_nonnull_update(oldslots, e_ind as int, loc);
                }
                self.chunks.insert(c_ind, nb);
            },
            None => {
                let mut nb = fresh_bucket();
                let ghost oldslots = nb.slots@;
                nb.slots[e_ind] = loc;
                nb.len = 1;
                proof {
                    lemma_count_nonnull_update(oldslots, e_ind as int, loc);
                }
                self.chunks.insert(c_ind, nb);
            },
        }
        proof {
            assert forall|e2: u64| #[trigger] self.spec_get(e2) == (if e2 == e.id {
                loc
            } else {
                old(self).spec_get(e2)
            }) by {
                let k2 = (e2 / 16) * 16;
                assert(0 <= e2 % 16 < 16) by (nonlinear_arith);
                assert(e2 == (e2 / 16) * 16 + e2 % 16) by (nonlinear_arith);
                assert(e.id == (e.id / 16) * 16 + e.id % 16) by (nonlinear_arith);
                if k2 == c_ind {
                    if e2 == e.id {
                    } else {
                        assert(e2 % 16 != e.id % 16);
                    }
                }
            }
            assert(self.as_map() =~= old(self).as_map().insert(e.id, loc));
        }
    }

    /// Remove the (entity, location) pair for the given entity, if any.
    pub fn remove(&mut self, e: Entity)
        requires
            old(self).wf(),
        ensures
            final(self).wf(),
            final(self).spec_get(e.id) == null_loc(),
            forall|e2: u64| #[trigger]
                final(self).spec_get(e2) == if e2 == e.id {
                    null_loc()
                } else {
                    old(self).spec_get(e2)
                },
            final(self).as_map() == old(self).as_map().remove(e.id),
    {
        let e_ind = (e.id % 16) as usize;
        let c_ind = e.id - (e.id % 16);
        proof {
            assert(e.id - e.id % 16 == (e.id / 16) * 16) by (nonlinear_arith);
        }
        let r = self.chunks.get(&c_ind);
        match r {
            Some(bucket) => {
                let mut nb = copy_bucket(bucket);
                let ghost oldslots = nb.slots@;
                if !nb.slots[e_ind].is_null() {
                    proof {
                        lemma_count_nonnull_at_least(nb.slots@);
                    }
                    nb.len = nb.len - 1;
                }
                nb.slots[e_ind] = EntityLocation::null();
                proof {
                    lemma_count_nonnull_update(oldslots, e_ind as int, null_loc());
                }
                if nb.len == 0 {
                    proof {
                        assert(bucket_wf(old(self).chunks@[c_ind]));
                        assert(oldslots == old(self).chunks@[c_ind].slots@);
                        assert(count_nonnull(nb.slots@) == 0);
                        lemma_count_nonnull_zero(nb.slots@);
                        assert forall|i: int| 0 <= i < 16 && i != e_ind as int implies #[trigger]
                        oldslots[i] == null_loc() by {
                            assert(nb.slots@[i] == oldslots[i]);
                            assert(nb.slots@[i] == null_loc());
                        }
                    }
                    self.chunks.remove(&c_ind);
                    proof {
                        assert(self.chunks@ == old(self).chunks@.remove(c_ind));
                    }
                } else {
                    proof {
                        assert(oldslots == old(self).chunks@[c_ind].slots@);
                        assert forall|i: int| 0 <= i < 16 && i != e_ind as int implies #[trigger]
                        nb.slots@[i] == oldslots[i] by {}
                    }
                    self.chunks.insert(c_ind, nb);
                    proof {
                        assert(self.chunks@.contains_key(c_ind));
                        assert(self.chunks@[c_ind].slots@ == oldslots.update(
                            e_ind as int,
                            null_loc(),
                        ));
                        assert forall|i: int| 0 <= i < 16 && i != e_ind as int implies #[trigger]
                        self.chunks@[c_ind].slots@[i] == oldslots[i] by {}
                    }
                }
            },
            None => {
                proof {
                    assert(!old(self).chunks@.contains_key(c_ind));
                }
            },
        }
        proof {
            assert forall|e2: u64| #[trigger] self.spec_get(e2) == (if e2 == e.id {
                null_loc()
            } else {
                old(self).spec_get(e2)
            }) by {
                let k2 = (e2 / 16) * 16;
                assert(0 <= e2 % 16 < 16) by (nonlinear_arith);
                assert(0 <= (e2 / 16) * 16 <= e2) by (nonlinear_arith);
                assert(e2 == (e2 / 16) * 16 + e2 % 16) by (nonlinear_arith);
                assert(e.id == (e.id / 16) * 16 + e.id % 16) by (nonlinear_arith);
                if k2 == c_ind {
                    if e2 == e.id {
                        assert(self.spec_get(e2) == null_loc());
                    } else {
                        assert(e2 % 16 != e.id % 16);
                        assert(self.spec_get(e2) == old(self).spec_get(e2));
                    }
                } else {
                    assert(self.spec_get(e2) == old(self).spec_get(e2));
                }
            }
            assert(self.as_map() =~= old(self).as_map().remove(e.id));
        }
    }

    /// Get the location recorded for the entity; returns the null
    /// location when the directory does not contain it.
    pub fn get(&self, e: Entity) -> (r: EntityLocation)
        requires
            self.wf(),
        ensures
            r == self.spec_get(e.id),
    {
        let e_ind = (e.id % 16) as usize;
        let c_ind = e.id - (e.id % 16);
        proof {
            assert(e.id - e.id % 16 == (e.id / 16) * 16) by (nonlinear_arith);
            assert(0 <= e.id % 16 < 16) by (nonlinear_arith);
        }
        match self.chunks.get(&c_ind) {
            Some(bucket) => bucket.slots[e_ind],
            None => EntityLocation::null(),
        }
    }

    /// Does this directory contain the entity `e`? Basically, is the
    /// entity alive as far as this directory knows?
    pub fn contains(&self, e: Entity) -> (r: bool)
        requires
            self.wf(),
        ensures
            r == (self.spec_get(e.id) != null_loc()),
    {
        let loc = self.get(e);
        !loc.is_null()
    }
}

impl Default for EntityMap {
    /// an empty directory
    fn default() -> (r: EntityMap)
        ensures
            r.wf(),
            forall|e: u64| #[trigger] r.spec_get(e) == null_loc(),
    {
        EntityMap::new()
    }
}

/// Directory round-trip: inserting a location for an entity and then
/// reading that entity back yields exactly the inserted location. This
/// is the map-level law behind `EntityMap::insert` and `EntityMap::get`,
/// whose contracts speak of `as_map`.
pub proof fn lemma_directory_round_trip(m: Map<u64, EntityLocation>, e: u64, loc: EntityLocation)
    ensures
        m.insert(e, loc).dom().contains(e),
        m.insert(e, loc)[e] == loc,
{
}

/// Despawn is the inverse of spawn for the directory: inserting an
/// absent entity and removing it again restores the directory, and the
/// insertion alone grows the set of live entities by exactly one.
pub proof fn lemma_spawn_despawn_inverse(m: Map<u64, EntityLocation>, e: u64, loc: EntityLocation)
    requires
        !m.dom().contains(e),
    ensures
        m.insert(e, loc).remove(e) == m,
        m.insert(e, loc).dom() == m.dom().insert(e),
        m.dom().finite() ==> m.insert(e, loc).dom().len() == m.dom().len() + 1,
{
    assert(m.insert(e, loc).remove(e) =~= m);
    assert(m.insert(e, loc).dom() =~= m.dom().insert(e));
}

/// A bucket with every slot null.
fn fresh_bucket() -> (r: EntityMapChunk)
    ensures
        r.slots@.len() == 16,
        forall|i: int| 0 <= i < 16 ==> r.slots@[i] == null_loc(),
        r.len == 0,
        count_nonnull(r.slots@) == 0,
{
    let mut slots: Vec<EntityLocation> = Vec::new();
    let mut i: usize = 0;
    while i < BUCKET_SIZE
        invariant
            0 <= i <= 16,
            slots@.len() == i,
            forall|k: int| 0 <= k < i ==> slots@[k] == null_loc(),
            count_nonnull(slots@) == 0,
        decreases 16 - i,
    {
        let ghost before = slots@;
        slots.push(EntityLocation::null());
        proof {
            assert(slots@.drop_last() =~= before);
        }
        i = i + 1;
    }
    EntityMapChunk { slots, len: 0 }
}

/// An element-for-element copy of a directory bucket.
fn copy_bucket(b: &EntityMapChunk) -> (r: EntityMapChunk)
    ensures
        r.slots@ == b.slots@,
        r.len == b.len,
{
    let mut slots: Vec<EntityLocation> = Vec::new();
    let mut i: usize = 0;
    while i < b.slots.len()
        invariant
            0 <= i <= b.slots@.len(),
            slots@.len() == i,
            forall|k: int| 0 <= k < i ==> slots@[k] == b.slots@[k],
        decreases b.slots@.len() - i,
    {
        slots.push(b.slots[i]);
        i = i + 1;
    }
    proof {
        assert(slots@ =~= b.slots@);
    }
    EntityMapChunk { slots, len: b.len }
}

/// Updating one slot moves the non-null count by the difference between
/// the new and old occupancy of that slot.
proof fn lemma_count_nonnull_update(s: Seq<EntityLocation>, i: int, v: EntityLocation)
    requires
        0 <= i < s.len(),
    ensures
        count_nonnull(s.update(i, v)) == count_nonnull(s) - (if s[i] == null_loc() {
            0int
        } else {
            1int
        }) + (if v == null_loc() {
            0int
        } else {
            1int
        }),
    decreases s.len(),
{
    let t = s.update(i, v);
    if i == s.len() - 1 {
        assert(t.drop_last() =~= s.drop_last());
        assert(t.last() == v);
    } else {
        assert(t.drop_last() =~= s.drop_last().update(i, v));
        assert(t.last() == s.last());
        lemma_count_nonnull_update(s.drop_last(), i, v);
    }
}

/// A sequence with no non-null slots is null everywhere.
proof fn lemma_count_nonnull_zero(s: Seq<EntityLocation>)
    requires
        count_nonnull(s) >= 0,
        count_nonnull(s) == 0,
    ensures
        forall|i: int| 0 <= i < s.len() ==> s[i] == null_loc(),
    decreases s.len(),
{
    if s.len() > 0 {
        lemma_count_nonnull_nonneg(s.drop_last());
        lemma_count_nonnull_zero(s.drop_last());
        assert forall|i: int| 0 <= i < s.len() implies s[i] == null_loc() by {
            if i < s.len() - 1 {
                assert(s.drop_last()[i] == s[i]);
            } else {
                assert(s.last() == s[i]);
            }
        }
    }
}

/// The non-null count is never negative.
proof fn lemma_count_nonnull_nonneg(s: Seq<EntityLocation>)
    ensures
        count_nonnull(s) >= 0,
    decreases s.len(),
{
    if s.len() > 0 {
        lemma_count_nonnull_nonneg(s.drop_last());
    }
}

/// The non-null count never exceeds the sequence length.
proof fn lemma_count_nonnull_le(s: Seq<EntityLocation>, n: int)
    requires
        s.len() == n,
    ensures
        count_nonnull(s) <= n,
    decreases s.len(),
{
    if s.len() > 0 {
        lemma_count_nonnull_le(s.drop_last(), n - 1);
    }
}

/// A sequence holding some non-null slot has a positive count.
proof fn lemma_count_nonnull_at_least(s: Seq<EntityLocation>)
    ensures
        forall|i: int| 0 <= i < s.len() && s[i] != null_loc() ==> count_nonnull(s) >= 1,
        count_nonnull(s) >= 0,
    decreases s.len(),
{
    if s.len() > 0 {
        lemma_count_nonnull_at_least(s.drop_last());
        assert forall|i: int| 0 <= i < s.len() && s[i] != null_loc() implies count_nonnull(s)
            >= 1 by {
            if i < s.len() - 1 {
                assert(s.drop_last()[i] == s[i]);
            }
        }
    }
}

} // verus!
