use vstd::prelude::*;

verus! {

use crate::chunk::{chunk_wf, slot_bytes, ArchetypeChunk};
use crate::cmp::{types_wf, CmpData, CmpId, CmpMeta};
use crate::entity::EntityLocation;
use crate::meta::{lemma_cap_bounds, type_has, type_idx, ArchetypeMeta};

/// A collection of all entities carrying one specific combination of
/// component types, stored in densely packed chunks.
#[derive(Debug)]
pub struct Archetype {
    /// meta-data about this archetype, shared by all its chunks
    pub meta: ArchetypeMeta,
    /// all chunks in this archetype. the collection can be expanded but
    /// is never shrunk, therefore elements are 'pinned' and an index
    /// can safely reference a chunk
    pub chunks: Vec<ArchetypeChunk>,
    /// indices of the chunks that still have free entity slots
    pub free: Vec<usize>,
}

impl Archetype {
    /// The archetype invariant. Beside the layout and per-chunk
    /// invariants it pins the free set down exactly: a chunk index is
    /// in `free` if and only if that chunk has a vacant slot.
    pub open spec fn wf(&self) -> bool {
        &&& self.meta.wf()
        &&& forall|c: int|
            0 <= c < self.chunks@.len() ==> chunk_wf(#[trigger] self.chunks@[c], self.meta)
        &&& forall|k: int| 0 <= k < self.free@.len() ==> (#[trigger] self.free@[k]) < self.chunks@.len()
        &&& forall|k1: int, k2: int|
            0 <= k1 < k2 < self.free@.len() ==> (#[trigger] self.free@[k1]) != (
            #[trigger] self.free@[k2])
        &&& forall|c: usize|
            c < self.chunks@.len() ==> ((#[trigger] self.chunks@[c as int]).ids@.len()
                < self.meta.max <==> self.free@.contains(c))
    }

    /// create a new archetype from a sorted vector of component meta
    pub fn new(id: usize, types: &Vec<CmpMeta>) -> (r: Archetype)
        requires
            types_wf(types@),
        ensures
            r.wf(),
            r.meta.id == id,
            r.meta.types@ == types@,
            r.chunks@.len() == 0,
            r.free@.len() == 0,
    {
        Archetype { meta: ArchetypeMeta::new(id, types), chunks: Vec::new(), free: Vec::new() }
    }

    /// get the meta for this `Archetype`
    pub fn meta(&self) -> (r: &ArchetypeMeta)
        ensures
            r == &self.meta,
    {
        &self.meta
    }

    /// get the chunks within this archetype
    pub fn chunks(&self) -> (r: &Vec<ArchetypeChunk>)
        ensures
            r == &self.chunks,
    {
        &self.chunks
    }

    /// get the chunks within this archetype, mutably; the caller is
    /// responsible for keeping the archetype invariant intact
    pub fn chunks_mut(&mut self) -> (r: &mut Vec<ArchetypeChunk>)
        ensures
            *r == old(self).chunks,
            final(self).chunks == *final(r),
            final(self).meta == old(self).meta,
            final(self).free == old(self).free,
    {
        &mut self.chunks
    }

    /// create a new empty chunk and add it to this archetype, marking
    /// it free; returns the chunk's index
    fn new_chunk(&mut self) -> (r: usize)
        requires
            old(self).wf(),
        ensures
            final(self).wf(),
            final(self).meta == old(self).meta,
            r == old(self).chunks@.len(),
            final(self).chunks@.len() == old(self).chunks@.len() + 1,
            forall|c: int|
                0 <= c < old(self).chunks@.len() ==> #[trigger] final(self).chunks@[c] == old(self).chunks@[c],
            final(self).chunks@[r as int].ids@.len() == 0,
            final(self).free@ == old(self).free@.push(r),
    {
        proof {
            lemma_cap_bounds(self.meta.types@);
        }
        let idx = self.chunks.len();
        let fresh = ArchetypeChunk::new(&self.meta);
        self.free.push(idx);
        self.chunks.push(fresh);
        proof {
            assert forall|c: usize|
                c < self.chunks@.len() implies ((#[trigger] self.chunks@[c as int]).ids@.len()
                < self.meta.max <==> self.free@.contains(c)) by {
                if c < idx {
                    assert(self.chunks@[c as int] == old(self).chunks@[c as int]);
                    if old(self).chunks@[c as int].ids@.len() < self.meta.max {
                        let k = choose|k: int|
                            0 <= k < old(self).free@.len() && old(self).free@[k] == c;
                        assert(self.free@[k] == c);
                    } else {
                        if self.free@.contains(c) {
                            let k = choose|k: int|
                                0 <= k < self.free@.len() && self.free@[k] == c;
                            assert(k < old(self).free@.len());
                            assert(old(self).free@[k] == c);
                        }
                    }
                } else {
                    assert(self.free@[old(self).free@.len() as int] == idx);
                }
            }
        }
        idx
    }

    /// inserts an entity into this archetype, and returns the location
    /// where it was placed. every component column of that slot must be
    /// written immediately after
    pub fn insert(&mut self, e: u64) -> (loc: EntityLocation)
        requires
            old(self).wf(),
        ensures
            final(self).wf(),
            final(self).meta == old(self).meta,
            loc.archetype == old(self).meta.id,
            loc.chunk < final(self).chunks@.len(),
            old(self).chunks@.len() <= final(self).chunks@.len() <= old(self).chunks@.len() + 1,
            final(self).chunks@.len() == old(self).chunks@.len() + 1 ==> loc.chunk == old(
                self,
            ).chunks@.len(),
            loc.index < final(self).chunks@[loc.chunk as int].ids@.len(),
            // the new slot is the chunk's previously next free slot
            loc.index == final(self).chunks@[loc.chunk as int].ids@.len() - 1,
            loc.chunk < old(self).chunks@.len() ==> final(self).chunks@[loc.chunk as int].ids@
                == old(self).chunks@[loc.chunk as int].ids@.push(e),
            loc.chunk >= old(self).chunks@.len() ==> final(self).chunks@[loc.chunk as int].ids@
                =~= seq![e],
            loc.chunk < old(self).chunks@.len() ==> final(self).chunks@[loc.chunk as int].data@
                == old(self).chunks@[loc.chunk as int].data@,
            // every other chunk is untouched
            forall|c: int|
                0 <= c < old(self).chunks@.len() && c != loc.chunk ==> #[trigger] final(self).chunks@[c] == old(self).chunks@[c],
    {
        let chunk: usize;
        if self.free.len() > 0 {
            chunk = self.free[self.free.len() - 1];
            proof {
                assert(self.free@[self.free@.len() - 1] == chunk);
                assert(self.free@.contains(chunk));
            }
        } else {
            chunk = self.new_chunk();
            proof {
                assert(self.free@[self.free@.len() - 1] == chunk);
                assert(self.free@.contains(chunk));
            }
        }
        let ghost mid = *self;
        let index = self.chunks[chunk].len();
        {
            let cm = &mut self.chunks[chunk];
            cm.push_id(&self.meta, e);
        }
        proof {
            assert(self.chunks@ == mid.chunks@.update(
                chunk as int,
                self.chunks@[chunk as int],
            ));
            assert(self.chunks@[chunk as int].ids@ == mid.chunks@[chunk as int].ids@.push(e));
        }
        // the chunk may now be full; it sat at the end of the free list
        if self.chunks[chunk].len() == self.meta.max {
            let _last: Option<usize> = self.free.pop();
            proof {
                let f0 = mid.free@;
                assert(self.free@ == f0.drop_last());
                assert(f0[f0.len() - 1] == chunk);
                assert forall|c: usize|
                    c < self.chunks@.len() implies ((#[trigger] self.chunks@[c as int]).ids@.len()
                    < self.meta.max <==> self.free@.contains(c)) by {
                    if c == chunk {
                        if self.free@.contains(c) {
                            let k = choose|k: int|
                                0 <= k < self.free@.len() && self.free@[k] == c;
                            assert(f0[k] == c);
                            assert(mid.wf());
                            assert(f0[k] != f0[f0.len() - 1]);
                            assert(false);
                        }
                    } else {
                        assert(self.chunks@[c as int] == mid.chunks@[c as int]);
                        if self.chunks@[c as int].ids@.len() < self.meta.max {
                            assert(f0.contains(c));
                            let k = choose|k: int| 0 <= k < f0.len() && f0[k] == c;
                            assert(k != f0.len() - 1);
                            assert(self.free@[k] == c);
                        } else {
                            if self.free@.contains(c) {
                                let k = choose|k: int|
                                    0 <= k < self.free@.len() && self.free@[k] == c;
                                assert(f0[k] == c);
                                assert(f0.contains(c));
                                assert(mid.chunks@[c as int].ids@.len() < self.meta.max);
                                assert(false);
                            }
                        }
                    }
                }
            }
        } else {
            proof {
                assert forall|c: usize|
                    c < self.chunks@.len() implies ((#[trigger] self.chunks@[c as int]).ids@.len()
                    < self.meta.max <==> self.free@.contains(c)) by {
                    if c != chunk {
                        assert(self.chunks@[c as int] == mid.chunks@[c as int]);
                    } else {
                        assert(mid.free@.contains(chunk));
                    }
                }
            }
        }
        EntityLocation::new(self.meta.id, chunk, index)
    }

    /// remove the entity at `loc` from this archetype and return the id
    /// of the entity whose location changed as a side effect, if any.
    ///
    /// chunks are kept packed: removing an entity swaps the chunk's
    /// last entity into its slot. `drop` mirrors whether component
    /// destructors would run; the byte buffer model keeps both paths
    /// identical.
    #[allow(unused_variables)]
    pub fn remove(&mut self, loc: EntityLocation, drop: bool) -> (r: Option<u64>)
        requires
            old(self).wf(),
            loc.archetype == old(self).meta.id,
            loc.chunk < old(self).chunks@.len(),
            loc.index < old(self).chunks@[loc.chunk as int].ids@.len(),
        ensures
            final(self).wf(),
            final(self).meta == old(self).meta,
            final(self).chunks@.len() == old(self).chunks@.len(),
            forall|c: int|
                0 <= c < old(self).chunks@.len() && c != loc.chunk ==> #[trigger] final(self).chunks@[c] == old(self).chunks@[c],
            // swap-remove locality: the last slot leaves quietly, any
            // other slot inherits the id that sat last
            (r is None) <==> loc.index == old(self).chunks@[loc.chunk as int].ids@.len() - 1,
            r is Some ==> r == Some(old(self).chunks@[loc.chunk as int].ids@.last()),
            final(self).chunks@[loc.chunk as int].ids@ == old(self).chunks@[loc.chunk as int].ids@.update(
                loc.index as int,
                old(self).chunks@[loc.chunk as int].ids@.last(),
            ).drop_last(),
            forall|tj: int, sj: int|
                0 <= tj < old(self).meta.types@.len()
                    && 0 <= sj < final(self).chunks@[loc.chunk as int].ids@.len()
                    && sj != loc.index ==> slot_bytes(
                    old(self).meta,
                    final(self).chunks@[loc.chunk as int].data@,
                    tj,
                    sj,
                ) == slot_bytes(old(self).meta, old(self).chunks@[loc.chunk as int].data@, tj, sj),
            loc.index < final(self).chunks@[loc.chunk as int].ids@.len() ==> forall|tj: int|
                0 <= tj < old(self).meta.types@.len() ==> slot_bytes(
                    old(self).meta,
                    final(self).chunks@[loc.chunk as int].data@,
                    tj,
                    loc.index as int,
                ) == slot_bytes(
                    old(self).meta,
                    old(self).chunks@[loc.chunk as int].data@,
                    tj,
                    old(self).chunks@[loc.chunk as int].ids@.len() - 1,
                ),
    {
        let c = loc.chunk();
        let was_full = self.chunks[c].len() == self.meta.max;
        let ghost mid = *self;
        let moved: Option<u64>;
        {
            let cm = &mut self.chunks[c];
            moved = cm.swap_remove_slot(&self.meta, loc.index());
        }
        proof {
            assert(self.chunks@ == mid.chunks@.update(c as int, self.chunks@[c as int]));
        }
        if was_full {
            self.free.push(c);
            proof {
                let f0 = mid.free@;
                assert forall|cc: usize|
                    cc < self.chunks@.len() implies ((#[trigger] self.chunks@[cc as int]).ids@.len()
                    < self.meta.max <==> self.free@.contains(cc)) by {
                    if cc == c {
                        assert(self.free@[f0.len() as int] == c);
                    } else {
                        assert(self.chunks@[cc as int] == mid.chunks@[cc as int]);
                        if self.chunks@[cc as int].ids@.len() < self.meta.max {
                            assert(f0.contains(cc));
                            let k = choose|k: int| 0 <= k < f0.len() && f0[k] == cc;
                            assert(self.free@[k] == cc);
                        } else {
                            if self.free@.contains(cc) {
                                let k = choose|k: int|
                                    0 <= k < self.free@.len() && self.free@[k] == cc;
                                assert(k < f0.len());
                                assert(f0[k] == cc);
                                assert(f0.contains(cc));
                                assert(mid.chunks@[cc as int].ids@.len() < self.meta.max);
                                assert(false);
                            }
                        }
                    }
                }
                assert forall|k1: int, k2: int|
                    0 <= k1 < k2 < self.free@.len() implies (#[trigger] self.free@[k1]) != (
                #[trigger] self.free@[k2]) by {
                    if k2 == self.free@.len() - 1 {
                        assert(self.free@[k2] == c);
                        assert(f0[k1] == self.free@[k1]);
                        if self.free@[k1] == c {
                            assert(f0.contains(c));
                            assert(mid.chunks@[c as int].ids@.len() < self.meta.max);
                            assert(false);
                        }
                    } else {
                        assert(f0[k1] == self.free@[k1] && f0[k2] == self.free@[k2]);
                    }
                }
            }
        } else {
            proof {
                assert(mid.chunks@[c as int].ids@.len() < self.meta.max);
                assert(mid.free@.contains(c));
                assert forall|cc: usize|
                    cc < self.chunks@.len() implies ((#[trigger] self.chunks@[cc as int]).ids@.len()
                    < self.meta.max <==> self.free@.contains(cc)) by {
                    if cc != c {
                        assert(self.chunks@[cc as int] == mid.chunks@[cc as int]);
                    } else {
                        assert(self.free@.contains(c));
                        assert(self.chunks@[c as int].ids@.len() < mid.chunks@[c as int].ids@.len());
                    }
                }
            }
        }
        moved
    }

    /// set the component data for an `EntityLocation` inside this
    /// archetype
    ///
    /// this should be called directly after `Archetype::insert`, once
    /// for every component of the set
    pub fn set(&mut self, loc: EntityLocation, cmp: &CmpData)
        requires
            old(self).wf(),
            loc.archetype == old(self).meta.id,
            loc.chunk < old(self).chunks@.len(),
            loc.index < old(self).chunks@[loc.chunk as int].ids@.len(),
            type_has(old(self).meta.types@, cmp.meta.id.0),
            cmp.bytes@.len() == old(self).meta.types@[type_idx(
                old(self).meta.types@,
                cmp.meta.id.0,
            )].size,
        ensures
            final(self).wf(),
            final(self).meta == old(self).meta,
            final(self).free@ == old(self).free@,
            final(self).chunks@.len() == old(self).chunks@.len(),
            forall|c: int|
                0 <= c < old(self).chunks@.len() && c != loc.chunk ==> #[trigger] final(self).chunks@[c] == old(self).chunks@[c],
            final(self).chunks@[loc.chunk as int].ids@ == old(self).chunks@[loc.chunk as int].ids@,
            slot_bytes(
                old(self).meta,
                final(self).chunks@[loc.chunk as int].data@,
                type_idx(old(self).meta.types@, cmp.meta.id.0),
                loc.index as int,
            ) == cmp.bytes@,
            forall|tj: int, sj: int|
                0 <= tj < old(self).meta.types@.len() && 0 <= sj < old(self).meta.max && (tj
                    != type_idx(old(self).meta.types@, cmp.meta.id.0) || sj != loc.index)
                    ==> slot_bytes(
                    old(self).meta,
                    final(self).chunks@[loc.chunk as int].data@,
                    tj,
                    sj,
                ) == slot_bytes(old(self).meta, old(self).chunks@[loc.chunk as int].data@, tj, sj),
    {
        self.set_dyn(loc, cmp.meta.id, &cmp.bytes)
    }

    /// see `Archetype::set`
    ///
    /// the _dyn flavor of functions takes a runtime component id and
    /// the raw bytes of one instance
    pub fn set_dyn(&mut self, loc: EntityLocation, t: CmpId, bytes: &Vec<u8>)
        requires
            old(self).wf(),
            loc.archetype == old(self).meta.id,
            loc.chunk < old(self).chunks@.len(),
            loc.index < old(self).chunks@[loc.chunk as int].ids@.len(),
            type_has(old(self).meta.types@, t.0),
            bytes@.len() == old(self).meta.types@[type_idx(old(self).meta.types@, t.0)].size,
        ensures
            final(self).wf(),
            final(self).meta == old(self).meta,
            final(self).free@ == old(self).free@,
            final(self).chunks@.len() == old(self).chunks@.len(),
            forall|c: int|
                0 <= c < old(self).chunks@.len() && c != loc.chunk ==> #[trigger] final(self).chunks@[c] == old(self).chunks@[c],
            final(self).chunks@[loc.chunk as int].ids@ == old(self).chunks@[loc.chunk as int].ids@,
            slot_bytes(
                old(self).meta,
                final(self).chunks@[loc.chunk as int].data@,
                type_idx(old(self).meta.types@, t.0),
                loc.index as int,
            ) == bytes@,
            forall|tj: int, sj: int|
                0 <= tj < old(self).meta.types@.len() && 0 <= sj < old(self).meta.max && (tj
                    != type_idx(old(self).meta.types@, t.0) || sj != loc.index) ==> slot_bytes(
                    old(self).meta,
                    final(self).chunks@[loc.chunk as int].data@,
                    tj,
                    sj,
                ) == slot_bytes(old(self).meta, old(self).chunks@[loc.chunk as int].data@, tj, sj),
    {
        let ti = match self.meta.find(t) {
            Some(i) => i,
            None => {
                proof {
                    assert(false);
                }
                0
            },
        };
        let ghost mid = *self;
        {
            let cm = &mut self.chunks[loc.chunk()];
            cm.write_slot(&self.meta, ti, loc.index(), bytes);
        }
        proof {
            assert(self.chunks@ == mid.chunks@.update(loc.chunk as int, self.chunks@[loc.chunk as int]));
            assert forall|c: usize|
                c < self.chunks@.len() implies ((#[trigger] self.chunks@[c as int]).ids@.len()
                < self.meta.max <==> self.free@.contains(c)) by {
                if c != loc.chunk {
                    assert(self.chunks@[c as int] == mid.chunks@[c as int]);
                } else {
                    assert(self.chunks@[c as int].ids@ == mid.chunks@[c as int].ids@);
                }
            }
        }
    }

    /// read the component data at an `EntityLocation` inside this
    /// archetype; returns none when the archetype does not store the
    /// requested component type
    pub fn get_dyn(&self, loc: EntityLocation, t: CmpId) -> (r: Option<Vec<u8>>)
        requires
            self.wf(),
            loc.chunk < self.chunks@.len(),
            loc.index < self.chunks@[loc.chunk as int].ids@.len(),
        ensures
            (r is Some) <==> type_has(self.meta.types@, t.0),
            r is Some ==> r.unwrap()@ == slot_bytes(
                self.meta,
                self.chunks@[loc.chunk as int].data@,
                type_idx(self.meta.types@, t.0),
                loc.index as int,
            ),
    {
        match self.meta.find(t) {
            Some(ti) => Some(self.chunks[loc.chunk()].read_slot(&self.meta, ti, loc.index())),
            None => None,
        }
    }
}

} // verus!
