use vstd::prelude::*;

verus! {

use crate::cmp::types_wf;
use crate::meta::{
    lemma_alloc_monotone,
    lemma_alloc_nonneg,
    lemma_align_up_props,
    lemma_cap_bounds,
    spec_alloc_prefix,
    spec_offset_of,
    ArchetypeMeta,
};

/// A single chunk in an archetype: the ids of the entities stored in
/// it, one per occupied slot, and the byte buffer holding the component
/// columns at the offsets cached in the archetype's meta.
///
/// Slots `[0, ids.len())` are occupied and densely packed; a slot's
/// column bytes are meaningful only once every column has been written
/// for it.
#[derive(Debug)]
pub struct ArchetypeChunk {
    /// entity ids of the occupied slots, in slot order
    pub ids: Vec<u64>,
    /// the chunk's byte buffer; component column `i` of the archetype
    /// starts at byte offset `meta.offsets[i]`
    pub data: Vec<u8>,
}

/// A chunk consistent with its archetype's layout: occupancy within
/// capacity and a buffer of exactly the allocation size.
pub open spec fn chunk_wf(c: ArchetypeChunk, meta: ArchetypeMeta) -> bool {
    &&& c.ids@.len() <= meta.max
    &&& c.data@.len() == meta.alloc
}

/// The bytes of component column `ti` at slot `slot` within a chunk's
/// buffer.
pub open spec fn slot_bytes(meta: ArchetypeMeta, data: Seq<u8>, ti: int, slot: int) -> Seq<u8> {
    let off = spec_offset_of(meta.types@, meta.max as int, ti);
    let size = meta.types@[ti].size as int;
    data.subrange(off + slot * size, off + slot * size + size)
}

/// Where slot `slot` of column `ti` starts within the chunk's buffer.
pub open spec fn slot_start(meta: ArchetypeMeta, ti: int, slot: int) -> int {
    spec_offset_of(meta.types@, meta.max as int, ti) + slot * (meta.types@[ti].size as int)
}

/// Every slot of every column lies between the id region and the end
/// of the allocation.
pub proof fn lemma_slot_in_alloc(meta: ArchetypeMeta, ti: int, slot: int)
    requires
        meta.wf(),
        0 <= ti < meta.types@.len(),
        0 <= slot < meta.max,
    ensures
        8 * (meta.max as int) <= slot_start(meta, ti, slot),
        slot_start(meta, ti, slot) + meta.types@[ti].size <= meta.alloc,
        spec_offset_of(meta.types@, meta.max as int, ti) <= slot_start(meta, ti, slot),
{
    let cap = meta.max as int;
    let types = meta.types@;
    let size = types[ti].size as int;
    let off = spec_offset_of(types, cap, ti);
    lemma_cap_bounds(types);
    lemma_alloc_nonneg(types, cap, ti);
    lemma_align_up_props(spec_alloc_prefix(types, cap, ti), types[ti].align as int);
    assert(off >= spec_alloc_prefix(types, cap, ti) >= 8 * cap);
    assert(0 <= slot * size && (slot + 1) * size <= cap * size && slot * size + size == (slot + 1)
        * size) by (nonlinear_arith)
        requires
            0 <= slot < cap,
            size >= 0,
    ;
    assert(spec_alloc_prefix(types, cap, ti + 1) == off + size * cap);
    assert(size * cap == cap * size) by (nonlinear_arith);
    lemma_alloc_monotone(types, cap, ti + 1, types.len() as int);
}

/// Two distinct (column, slot) pairs occupy disjoint byte ranges: the
/// chunk layout never lets columns or slots overlap.
pub proof fn lemma_slots_disjoint(meta: ArchetypeMeta, ti: int, si: int, tj: int, sj: int)
    requires
        meta.wf(),
        0 <= ti < meta.types@.len(),
        0 <= si < meta.max,
        0 <= tj < meta.types@.len(),
        0 <= sj < meta.max,
        ti != tj || si != sj,
    ensures
        slot_start(meta, ti, si) + meta.types@[ti].size <= slot_start(meta, tj, sj) || slot_start(
            meta,
            tj,
            sj,
        ) + meta.types@[tj].size <= slot_start(meta, ti, si),
{
    let cap = meta.max as int;
    let types = meta.types@;
    if ti == tj {
        let size = types[ti].size as int;
        if si < sj {
            assert((si + 1) * size <= sj * size && si * size + size == (si + 1) * size)
                by (nonlinear_arith)
                requires
                    si + 1 <= sj,
                    size >= 0,
            ;
        } else {
            assert((sj + 1) * size <= si * size && sj * size + size == (sj + 1) * size)
                by (nonlinear_arith)
                requires
                    sj + 1 <= si,
                    size >= 0,
            ;
        }
    } else if ti < tj {
        lemma_column_order(meta, ti, si, tj, sj);
    } else {
        lemma_column_order(meta, tj, sj, ti, si);
    }
}

/// An earlier column's slots end before a later column's slots begin.
proof fn lemma_column_order(meta: ArchetypeMeta, ti: int, si: int, tj: int, sj: int)
    requires
        meta.wf(),
        0 <= ti < tj < meta.types@.len(),
        0 <= si < meta.max,
        0 <= sj < meta.max,
    ensures
        slot_start(meta, ti, si) + meta.types@[ti].size <= slot_start(meta, tj, sj),
{
    let cap = meta.max as int;
    let types = meta.types@;
    let size_i = types[ti].size as int;
    let off_i = spec_offset_of(types, cap, ti);
    let off_j = spec_offset_of(types, cap, tj);
    lemma_cap_bounds(types);
    assert((si + 1) * size_i <= cap * size_i && si * size_i + size_i == (si + 1) * size_i && 0
        <= sj * (types[tj].size as int)) by (nonlinear_arith)
        requires
            0 <= si < cap,
            size_i >= 0,
            0 <= sj,
            types[tj].size >= 0,
    ;
    assert(spec_alloc_prefix(types, cap, ti + 1) == off_i + size_i * cap);
    assert(size_i * cap == cap * size_i) by (nonlinear_arith);
    lemma_alloc_monotone(types, cap, ti + 1, tj);
    lemma_alloc_nonneg(types, cap, tj);
    lemma_align_up_props(spec_alloc_prefix(types, cap, tj), types[tj].align as int);
    assert(off_j >= spec_alloc_prefix(types, cap, tj));
}

impl ArchetypeChunk {
    /// A fresh, empty chunk for an archetype with the given layout.
    pub fn new(meta: &ArchetypeMeta) -> (r: ArchetypeChunk)
        requires
            meta.wf(),
        ensures
            chunk_wf(r, *meta),
            r.ids@.len() == 0,
            r.data@.len() == meta.alloc,
    {
        let mut data: Vec<u8> = Vec::new();
        let mut i: usize = 0;
        while i < meta.alloc
            invariant
                data@.len() == i,
                0 <= i <= meta.alloc,
            decreases meta.alloc - i,
        {
            data.push(0u8);
            i = i + 1;
        }
        ArchetypeChunk { ids: Vec::new(), data }
    }

    /// returns the entity ids within this chunk, one per occupied slot:
    /// `entities().len() == chunk.len()`
    pub fn entities(&self) -> (r: &Vec<u64>)
        ensures
            r@ == self.ids@,
    {
        &self.ids
    }

    /// number of entities currently stored in this chunk
    pub fn len(&self) -> (r: usize)
        ensures
            r == self.ids@.len(),
    {
        self.ids.len()
    }

    /// Copy out the bytes of one component slot.
    pub fn read_slot(&self, meta: &ArchetypeMeta, ti: usize, slot: usize) -> (r: Vec<u8>)
        requires
            meta.wf(),
            chunk_wf(*self, *meta),
            ti < meta.types@.len(),
            slot < meta.max,
        ensures
            r@ == slot_bytes(*meta, self.data@, ti as int, slot as int),
            r@.len() == meta.types@[ti as int].size,
    {
        proof {
            lemma_slot_in_alloc(*meta, ti as int, slot as int);
        }
        let size = self.read_slot_size(meta, ti);
        let base = self.slot_base(meta, ti, slot);
        let mut r: Vec<u8> = Vec::new();
        let mut k: usize = 0;
        while k < size
            invariant
                0 <= k <= size,
                base + size <= self.data@.len(),
                base + size <= usize::MAX,
                r@.len() == k,
                forall|m: int| 0 <= m < k ==> r@[m] == self.data@[base + m],
            decreases size - k,
        {
            r.push(self.data[base + k]);
            k = k + 1;
        }
        proof {
            assert(r@ =~= slot_bytes(*meta, self.data@, ti as int, slot as int));
        }
        r
    }

    /// Overwrite the bytes of one component slot; every other slot of
    /// every column keeps its bytes.
    pub fn write_slot(&mut self, meta: &ArchetypeMeta, ti: usize, slot: usize, bytes: &Vec<u8>)
        requires
            meta.wf(),
            chunk_wf(*old(self), *meta),
            ti < meta.types@.len(),
            slot < meta.max,
            bytes@.len() == meta.types@[ti as int].size,
        ensures
            chunk_wf(*final(self), *meta),
            final(self).ids@ == old(self).ids@,
            final(self).data@.len() == old(self).data@.len(),
            slot_bytes(*meta, final(self).data@, ti as int, slot as int) == bytes@,
            forall|tj: int, sj: int|
                0 <= tj < meta.types@.len() && 0 <= sj < meta.max && (tj != ti || sj != slot)
                    ==> slot_bytes(*meta, final(self).data@, tj, sj) == slot_bytes(
                    *meta,
                    old(self).data@,
                    tj,
                    sj,
                ),
    {
        proof {
            lemma_slot_in_alloc(*meta, ti as int, slot as int);
        }
        let size = self.read_slot_size(meta, ti);
        let base = self.slot_base(meta, ti, slot);
        let ghost olddata = self.data@;
        let mut k: usize = 0;
        while k < size
            invariant
                0 <= k <= size,
                base + size <= self.data@.len(),
                base + size <= usize::MAX,
                bytes@.len() == size,
                self.data@.len() == olddata.len(),
                self.ids@ == old(self).ids@,
                forall|m: int| 0 <= m < k ==> self.data@[base + m] == bytes@[m],
                forall|m: int|
                    0 <= m < self.data@.len() && !(base <= m < base + k) ==> self.data@[m]
                        == olddata[m],
            decreases size - k,
        {
            self.data[base + k] = bytes[k];
            k = k + 1;
        }
        proof {
            assert(slot_bytes(*meta, self.data@, ti as int, slot as int) =~= bytes@);
            assert forall|tj: int, sj: int|
                0 <= tj < meta.types@.len() && 0 <= sj < meta.max && (tj != ti as int || sj != slot
                    as int) implies slot_bytes(*meta, self.data@, tj, sj) == slot_bytes(
                *meta,
                olddata,
                tj,
                sj,
            ) by {
                lemma_slots_disjoint(*meta, ti as int, slot as int, tj, sj);
                lemma_slot_in_alloc(*meta, tj, sj);
                assert(slot_bytes(*meta, self.data@, tj, sj) =~= slot_bytes(*meta, olddata, tj, sj));
            }
        }
    }

    /// The exec mirror of a column's slot size.
    fn read_slot_size(&self, meta: &ArchetypeMeta, ti: usize) -> (r: usize)
        requires
            meta.wf(),
            ti < meta.types@.len(),
        ensures
            r == meta.types@[ti as int].size,
    {
        meta.types[ti].size as usize
    }

    /// The exec mirror of `slot_start`.
    fn slot_base(&self, meta: &ArchetypeMeta, ti: usize, slot: usize) -> (r: usize)
        requires
            meta.wf(),
            chunk_wf(*self, *meta),
            ti < meta.types@.len(),
            slot < meta.max,
        ensures
            r == slot_start(*meta, ti as int, slot as int),
            r + meta.types@[ti as int].size <= self.data@.len(),
    {
        proof {
            lemma_slot_in_alloc(*meta, ti as int, slot as int);
        }
        meta.offsets[ti] + slot * (meta.types[ti].size as usize)
    }

    /// Append an entity id to the chunk, occupying the next free slot.
    /// Its component columns at that slot must be written right after.
    pub fn push_id(&mut self, meta: &ArchetypeMeta, e: u64)
        requires
            meta.wf(),
            chunk_wf(*old(self), *meta),
            old(self).ids@.len() < meta.max,
        ensures
            chunk_wf(*final(self), *meta),
            final(self).ids@ == old(self).ids@.push(e),
            final(self).data@ == old(self).data@,
    {
        self.ids.push(e);
    }

    /// Remove the entity at `slot`, swapping the last slot's id and
    /// column bytes into its place so the chunk stays densely packed.
    ///
    /// Swap-remove locality: removing the last slot returns `None`;
    /// removing any other slot returns the id that sat in the last
    /// slot, which now sits in `slot`.
    pub fn swap_remove_slot(&mut self, meta: &ArchetypeMeta, slot: usize) -> (r: Option<u64>)
        requires
            meta.wf(),
            chunk_wf(*old(self), *meta),
            slot < old(self).ids@.len(),
        ensures
            chunk_wf(*final(self), *meta),
            final(self).ids@.len() == old(self).ids@.len() - 1,
            (r is None) <==> slot == old(self).ids@.len() - 1,
            r is Some ==> r == Some(old(self).ids@.last()),
            final(self).ids@ == old(self).ids@.update(slot as int, old(self).ids@.last(),
            ).drop_last(),
            forall|tj: int, sj: int|
                0 <= tj < meta.types@.len() && 0 <= sj < final(self).ids@.len() && sj != slot
                    ==> slot_bytes(*meta, final(self).data@, tj, sj) == slot_bytes(
                    *meta,
                    old(self).data@,
                    tj,
                    sj,
                ),
            slot < final(self).ids@.len() ==> forall|tj: int|
                0 <= tj < meta.types@.len() ==> slot_bytes(*meta, final(self).data@, tj, slot as int)
                    == slot_bytes(*meta, old(self).data@, tj, old(self).ids@.len() - 1),
    {
        let last = self.ids.len() - 1;
        if slot == last {
            self.ids.pop();
            proof {
                assert(self.ids@ =~= old(self).ids@.update(slot as int, old(self).ids@.last(),
                ).drop_last());
            }
            return None;
        }
        let moved = self.ids[last];
        let _removed: u64 = self.ids.swap_remove(slot);
        let ghost olddata = self.data@;
        // move the last slot's bytes into the vacated slot, column by
        // column
        let mut ti: usize = 0;
        let n = self.type_count(meta);
        while ti < n
            invariant
                n == meta.types@.len(),
                0 <= ti <= n,
                meta.wf(),
                chunk_wf(*self, *meta),
                slot < last < meta.max,
                self.data@.len() == olddata.len(),
                self.ids@ == old(self).ids@.update(slot as int, old(self).ids@.last()).drop_last(),
                forall|tj: int|
                    0 <= tj < ti ==> slot_bytes(*meta, self.data@, tj, slot as int) == slot_bytes(
                        *meta,
                        olddata,
                        tj,
                        last as int,
                    ),
                forall|tj: int, sj: int|
                    0 <= tj < n && 0 <= sj < meta.max && sj != slot ==> slot_bytes(
                        *meta,
                        self.data@,
                        tj,
                        sj,
                    ) == slot_bytes(*meta, olddata, tj, sj),
            decreases n - ti,
        {
            let src = self.read_slot(meta, ti, last);
            self.write_slot(meta, ti, slot, &src);
            ti = ti + 1;
        }
        Some(moved)
    }

    /// The exec mirror of the column count.
    fn type_count(&self, meta: &ArchetypeMeta) -> (r: usize)
        ensures
            r == meta.types@.len(),
    {
        meta.types.len()
    }
}

} // verus!
