use vstd::prelude::*;

verus! {

use crate::cmp::{
    lemma_entry_size_prefix_le,
    meta_wf,
    metas_of,
    set_has_id,
    set_idx_of,
    spec_entry_size,
    types_wf,
    CmpData,
    CmpId,
    CmpMeta,
};

/// Target size, in bytes, of a single chunk within an archetype (16kb).
pub const TARGET_SIZE: usize = 16_000;

/// `x` rounded up to the next multiple of `a`.
pub open spec fn spec_align_up(x: int, a: int) -> int {
    x + ((a - x % a) % a)
}

/// Bytes allocated once the id column and the first `n` component
/// columns of a chunk are laid out, each column padded to its type's
/// alignment.
pub open spec fn spec_alloc_prefix(metas: Seq<CmpMeta>, cap: int, n: int) -> int
    decreases n,
{
    if n <= 0 {
        8 * cap
    } else {
        spec_align_up(spec_alloc_prefix(metas, cap, n - 1), metas[n - 1].align as int) + metas[n
            - 1].size * cap
    }
}

/// Byte offset of column `i` within a chunk.
pub open spec fn spec_offset_of(metas: Seq<CmpMeta>, cap: int, i: int) -> int {
    spec_align_up(spec_alloc_prefix(metas, cap, i), metas[i].align as int)
}

/// How many entities one chunk of this component set can hold.
pub open spec fn spec_capacity(metas: Seq<CmpMeta>) -> int {
    16_000int / spec_entry_size(metas)
}

/// The total chunk allocation size, in bytes, for this component set.
pub open spec fn spec_alloc_size(metas: Seq<CmpMeta>) -> int {
    spec_alloc_prefix(metas, spec_capacity(metas), metas.len() as int)
}

/// Some column of `metas` carries component type `t`.
pub open spec fn type_has(metas: Seq<CmpMeta>, t: u64) -> bool {
    exists|i: int| 0 <= i < metas.len() && (#[trigger] metas[i]).id.0 == t
}

/// The column index of component type `t` within `metas`.
pub open spec fn type_idx(metas: Seq<CmpMeta>, t: u64) -> int {
    choose|i: int| 0 <= i < metas.len() && (#[trigger] metas[i]).id.0 == t
}

/// Meta-data about an archetype: its index in the scene's archetype
/// vector, the sorted component types it stores, and the cached chunk
/// layout (per-column byte offsets, capacity and allocation size).
///
/// This is calculated once in `ArchetypeMeta::new` and never altered.
#[derive(Debug)]
pub struct ArchetypeMeta {
    /// index of this archetype in the scene's archetype vector
    pub id: usize,
    /// the component types stored, in canonical order
    pub types: Vec<CmpMeta>,
    /// byte offset of each component column within a chunk
    pub offsets: Vec<usize>,
    /// max entities that can be stored in a single chunk
    pub max: usize,
    /// size, in bytes, of the allocation backing one chunk
    pub alloc: usize,
}

impl ArchetypeMeta {
    /// The layout invariant: the types are canonical and every cached
    /// number agrees with the layout arithmetic. In particular
    /// `max == TARGET_SIZE / entry_size`: the capacity law.
    pub open spec fn wf(&self) -> bool {
        &&& types_wf(self.types@)
        &&& self.max == spec_capacity(self.types@)
        &&& self.offsets@.len() == self.types@.len()
        &&& forall|i: int|
            0 <= i < self.types@.len() ==> self.offsets@[i] == spec_offset_of(
                self.types@,
                self.max as int,
                i,
            )
        &&& self.alloc == spec_alloc_size(self.types@)
    }

    /// create a new archetype meta from a sorted vector of component meta
    #[verifier::loop_isolation(false)]
    pub fn new(id: usize, types: &Vec<CmpMeta>) -> (r: ArchetypeMeta)
        requires
            types_wf(types@),
        ensures
            r.wf(),
            r.id == id,
            r.types@ == types@,
            r.max == 16_000int / spec_entry_size(types@),
    {
        proof {
            lemma_cap_bounds(types@);
            lemma_alloc_prefix_bound(types@, spec_capacity(types@), types@.len() as int);
            lemma_entry_ge_len(types@);
        }
        // size, in bytes, of all components plus the id for one entity
        let mut entry: u64 = 8;
        let mut i: usize = 0;
        while i < types.len()
            invariant
                0 <= i <= types@.len(),
                entry == spec_entry_size(types@.take(i as int)),
                entry <= 16_000,
            decreases types@.len() - i,
        {
            proof {
                assert(types@.take(i + 1).drop_last() =~= types@.take(i as int));
                assert(types@.take(i + 1).last() == types@[i as int]);
                lemma_entry_size_prefix_le(types@, i + 1);
            }
            entry = entry + (types[i].size as u64);
            i = i + 1;
        }
        proof {
            assert(types@.take(types@.len() as int) =~= types@);
        }

        // max entities that can be stored in one chunk of this archetype
        let max = (16_000u64 / entry) as usize;
        proof {
            assert(max == spec_capacity(types@));
            assert(1 <= max <= 2000);
        }

        // lay the columns out: the id column first, then each component
        // column padded to its own alignment
        let cap = max;
        let mut offsets: Vec<usize> = Vec::new();
        let mut alloc: usize = 8 * max;
        let mut i: usize = 0;
        while i < types.len()
            invariant
                0 <= i <= types@.len(),
                types_wf(types@),
                1 <= cap <= 2000,
                cap == spec_capacity(types@),
                offsets@.len() == i,
                forall|k: int|
                    0 <= k < i ==> offsets@[k] == spec_offset_of(types@, cap as int, k),
                alloc == spec_alloc_prefix(types@, cap as int, i as int),
            decreases types@.len() - i,
        {
            proof {
                lemma_alloc_prefix_bound(types@, cap as int, types@.len() as int);
                lemma_alloc_monotone(types@, cap as int, i + 1, types@.len() as int);
                lemma_entry_ge_len(types@);
                assert(meta_wf(types@[i as int]));
                assert(types@[i as int].align >= 1);
            }
            let a = types[i].align as usize;
            let ghost prev = alloc as int;
            proof {
                lemma_align_up_props(prev, a as int);
                assert(spec_alloc_prefix(types@, cap as int, i + 1) == spec_align_up(prev, a as int)
                    + types@[i as int].size * cap);
                assert(types@[i as int].size * cap >= 0) by (nonlinear_arith)
                    requires
                        cap >= 1,
                ;
            }
            let pad = (a - alloc % a) % a;
            let off = alloc + pad;
            offsets.push(off);
            alloc = off + (types[i].size as usize) * cap;
            i = i + 1;
        }
        proof {
            assert(offsets@.len() == types@.len());
        }
        let r = ArchetypeMeta { id, types: copy_metas(types), offsets, max, alloc };
        r
    }

    /// see `ArchetypeMeta::contains`
    ///
    /// the _dyn flavor of functions takes a runtime component id
    pub fn contains_dyn(&self, id: CmpId) -> (r: bool)
        requires
            self.wf(),
        ensures
            r == type_has(self.types@, id.0),
    {
        self.find(id).is_some()
    }

    /// does this archetype store the component type described by `m`?
    pub fn contains(&self, m: &CmpMeta) -> (r: bool)
        requires
            self.wf(),
        ensures
            r == type_has(self.types@, m.id.0),
    {
        self.contains_dyn(m.id)
    }

    /// The column index of component type `id` in this archetype, if
    /// the archetype stores it.
    #[verifier::loop_isolation(false)]
    pub fn find(&self, id: CmpId) -> (r: Option<usize>)
        requires
            self.wf(),
        ensures
            match r {
                Some(i) => type_has(self.types@, id.0) && i == type_idx(self.types@, id.0) && 0
                    <= i < self.types@.len() && self.types@[i as int].id.0 == id.0,
                None => !type_has(self.types@, id.0),
            },
    {
        let mut i: usize = 0;
        while i < self.types.len()
            invariant
                0 <= i <= self.types@.len(),
                forall|k: int| 0 <= k < i ==> (#[trigger] self.types@[k]).id.0 != id.0,
            decreases self.types@.len() - i,
        {
            if self.types[i].id.0 == id.0 {
                proof {
                    assert(type_has(self.types@, id.0));
                    lemma_type_idx_unique(self.types@, id.0);
                }
                return Some(i);
            }
            i = i + 1;
        }
        None
    }

    /// see `ArchetypeMeta::get`
    ///
    /// the _dyn flavor of functions takes a runtime component id
    ///
    /// the component must be in this archetype; use
    /// `ArchetypeMeta::contains` to check
    pub fn get_dyn(&self, id: CmpId) -> (r: (CmpMeta, usize))
        requires
            self.wf(),
            type_has(self.types@, id.0),
        ensures
            ({
                let i = type_idx(self.types@, id.0);
                r.0 == self.types@[i] && r.1 == self.offsets@[i]
            }),
    {
        let i = self.find(id).unwrap();
        (self.types[i], self.offsets[i])
    }

    /// get the (descriptor, column offset) pair for the component type
    /// described by `m`; it must be in this archetype
    pub fn get(&self, m: &CmpMeta) -> (r: (CmpMeta, usize))
        requires
            self.wf(),
            type_has(self.types@, m.id.0),
        ensures
            ({
                let i = type_idx(self.types@, m.id.0);
                r.0 == self.types@[i] && r.1 == self.offsets@[i]
            }),
    {
        self.get_dyn(m.id)
    }

    /// see `ArchetypeMeta::try_get`
    ///
    /// the _dyn flavor of functions takes a runtime component id
    pub fn try_get_dyn(&self, id: CmpId) -> (r: Option<(CmpMeta, usize)>)
        requires
            self.wf(),
        ensures
            match r {
                Some(p) => type_has(self.types@, id.0) && ({
                    let i = type_idx(self.types@, id.0);
                    p.0 == self.types@[i] && p.1 == self.offsets@[i]
                }),
                None => !type_has(self.types@, id.0),
            },
    {
        match self.find(id) {
            Some(i) => Some((self.types[i], self.offsets[i])),
            None => None,
        }
    }

    /// try to get the (descriptor, column offset) pair for the
    /// component type described by `m`; returns none when the archetype
    /// does not store it
    pub fn try_get(&self, m: &CmpMeta) -> (r: Option<(CmpMeta, usize)>)
        requires
            self.wf(),
        ensures
            match r {
                Some(p) => type_has(self.types@, m.id.0) && ({
                    let i = type_idx(self.types@, m.id.0);
                    p.0 == self.types@[i] && p.1 == self.offsets@[i]
                }),
                None => !type_has(self.types@, m.id.0),
            },
    {
        self.try_get_dyn(m.id)
    }

    /// returns a copy of the component ids and descriptors within this
    /// archetype, in canonical order
    pub fn types(&self) -> (r: (Vec<CmpId>, Vec<CmpMeta>))
        ensures
            r.0@.len() == self.types@.len(),
            forall|i: int| 0 <= i < self.types@.len() ==> r.0@[i] == (#[trigger] self.types@[i]).id,
            r.1@ == self.types@,
    {
        let mut ids: Vec<CmpId> = Vec::new();
        let mut i: usize = 0;
        while i < self.types.len()
            invariant
                0 <= i <= self.types@.len(),
                ids@.len() == i,
                forall|k: int| 0 <= k < i ==> ids@[k] == (#[trigger] self.types@[k]).id,
            decreases self.types@.len() - i,
        {
            ids.push(self.types[i].id);
            i = i + 1;
        }
        (ids, copy_metas(&self.types))
    }
}

/// An element-for-element copy of a descriptor vector.
fn copy_metas(v: &Vec<CmpMeta>) -> (r: Vec<CmpMeta>)
    ensures
        r@ == v@,
{
    let mut r: Vec<CmpMeta> = Vec::new();
    let mut i: usize = 0;
    while i < v.len()
        invariant
            0 <= i <= v@.len(),
            r@.len() == i,
            forall|k: int| 0 <= k < i ==> r@[k] == v@[k],
        decreases v@.len() - i,
    {
        r.push(v[i]);
        i = i + 1;
    }
    proof {
        assert(r@ =~= v@);
    }
    r
}

/// Rounding up to a positive alignment lands within one alignment of
/// the start, on a multiple of the alignment.
pub proof fn lemma_align_up_props(x: int, a: int)
    requires
        x >= 0,
        a >= 1,
    ensures
        x <= spec_align_up(x, a) < x + a,
        spec_align_up(x, a) % a == 0,
{
    vstd::arithmetic::div_mod::lemma_mod_division_less_than_divisor(x, a);
    let r = x % a;
    assert(0 <= r < a);
    if r == 0 {
        vstd::arithmetic::div_mod::lemma_mod_self_0(a);
        assert((a - r) % a == 0);
        assert(spec_align_up(x, a) == x);
    } else {
        vstd::arithmetic::div_mod::lemma_small_mod((a - r) as nat, a as nat);
        assert((a - r) % a == a - r);
        assert(spec_align_up(x, a) == x + a - r);
        vstd::arithmetic::div_mod::lemma_fundamental_div_mod(x, a);
        assert(x == a * (x / a) + r);
        assert(x + a - r == (x / a + 1) * a) by (nonlinear_arith)
            requires
                x == a * (x / a) + r,
        ;
        vstd::arithmetic::div_mod::lemma_mod_multiples_basic(x / a + 1, a);
        assert(((x / a + 1) * a) % a == 0);
    }
}

/// Every cached column offset is a multiple of its type's alignment.
pub proof fn lemma_offsets_aligned(meta: &ArchetypeMeta, i: int)
    requires
        meta.wf(),
        0 <= i < meta.types@.len(),
    ensures
        meta.offsets@[i] as int % (meta.types@[i].align as int) == 0,
{
    lemma_cap_bounds(meta.types@);
    lemma_alloc_nonneg(meta.types@, meta.max as int, i);
    assert(meta_wf(meta.types@[i]));
    lemma_align_up_props(
        spec_alloc_prefix(meta.types@, meta.max as int, i),
        meta.types@[i].align as int,
    );
}

/// Entry size is at least the id column plus one byte per component.
pub proof fn lemma_entry_ge_len(metas: Seq<CmpMeta>)
    requires
        forall|i: int| 0 <= i < metas.len() ==> meta_wf(#[trigger] metas[i]),
    ensures
        spec_entry_size(metas) >= 8 + metas.len(),
    decreases metas.len(),
{
    if metas.len() > 0 {
        lemma_entry_ge_len(metas.drop_last());
    }
}

/// The capacity of a well-formed component set is between one and two
/// thousand entities.
pub proof fn lemma_cap_bounds(metas: Seq<CmpMeta>)
    requires
        types_wf(metas),
    ensures
        1 <= spec_capacity(metas) <= 2000,
        spec_entry_size(metas) >= 8,
{
    lemma_entry_ge_len(metas);
    let e = spec_entry_size(metas);
    assert(8 <= e <= 16_000);
    assert(1 <= 16_000int / e <= 2000) by (nonlinear_arith)
        requires
            8 <= e <= 16_000,
    ;
}

/// Laying out one more column never shrinks the allocation.
pub proof fn lemma_alloc_monotone(metas: Seq<CmpMeta>, cap: int, n1: int, n2: int)
    requires
        forall|i: int| 0 <= i < metas.len() ==> meta_wf(#[trigger] metas[i]),
        cap >= 0,
        0 <= n1 <= n2 <= metas.len(),
    ensures
        spec_alloc_prefix(metas, cap, n1) <= spec_alloc_prefix(metas, cap, n2),
    decreases n2 - n1,
{
    if n1 < n2 {
        lemma_alloc_monotone(metas, cap, n1, n2 - 1);
        let prev = spec_alloc_prefix(metas, cap, n2 - 1);
        lemma_alloc_nonneg(metas, cap, n2 - 1);
        lemma_align_up_props(prev, metas[n2 - 1].align as int);
        assert(metas[n2 - 1].size * cap >= 0) by (nonlinear_arith)
            requires
                cap >= 0,
        ;
    }
}

/// Allocation sizes are never negative.
pub proof fn lemma_alloc_nonneg(metas: Seq<CmpMeta>, cap: int, n: int)
    requires
        forall|i: int| 0 <= i < metas.len() ==> meta_wf(#[trigger] metas[i]),
        cap >= 0,
        0 <= n <= metas.len(),
    ensures
        spec_alloc_prefix(metas, cap, n) >= 8 * cap >= 0,
    decreases n,
{
    if n > 0 {
        lemma_alloc_nonneg(metas, cap, n - 1);
        let prev = spec_alloc_prefix(metas, cap, n - 1);
        lemma_align_up_props(prev, metas[n - 1].align as int);
        assert(metas[n - 1].size * cap >= 0) by (nonlinear_arith)
            requires
                cap >= 0,
        ;
    }
}

/// The whole chunk allocation stays well below the address-space limit:
/// each column adds its padding (below one alignment, so below `2^32`)
/// plus its data (`size * cap`, bounded through the entry size).
pub proof fn lemma_alloc_prefix_bound(metas: Seq<CmpMeta>, cap: int, n: int)
    requires
        types_wf(metas),
        1 <= cap <= 2000,
        0 <= n <= metas.len(),
    ensures
        spec_alloc_prefix(metas, cap, n) <= 8 * cap + n * 0x4000 + cap * spec_entry_size(
            metas.take(n),
        ),
        spec_alloc_prefix(metas, cap, n) < 0x2000_0000,
    decreases n,
{
    lemma_entry_ge_len(metas);
    if n == 0 {
        assert(metas.take(0) =~= Seq::<CmpMeta>::empty());
        assert(spec_entry_size(metas.take(0)) == 8);
        assert(8 * cap <= 8 * cap + cap * 8) by (nonlinear_arith)
            requires
                cap >= 0,
        ;
    } else {
        lemma_alloc_prefix_bound(metas, cap, n - 1);
        let prev = spec_alloc_prefix(metas, cap, n - 1);
        lemma_alloc_nonneg(metas, cap, n - 1);
        lemma_align_up_props(prev, metas[n - 1].align as int);
        assert(metas[n - 1].align <= 0x4000);
        assert(metas.take(n).drop_last() =~= metas.take(n - 1));
        assert(metas.take(n).last() == metas[n - 1]);
        assert(spec_entry_size(metas.take(n)) == spec_entry_size(metas.take(n - 1)) + metas[n
            - 1].size);
        assert(metas[n - 1].size * cap == cap * metas[n - 1].size) by (nonlinear_arith);
        assert(cap * spec_entry_size(metas.take(n)) == cap * spec_entry_size(metas.take(n - 1))
            + cap * metas[n - 1].size) by (nonlinear_arith)
            requires
                spec_entry_size(metas.take(n)) == spec_entry_size(metas.take(n - 1)) + metas[n
                    - 1].size,
        ;
    }
    // the coarse bound: with the entry budget met, everything fits easily
    lemma_entry_size_prefix_le(metas, n);
    lemma_entry_nonneg(metas.take(n));
    assert(spec_entry_size(metas.take(n)) <= 16_000);
    assert(metas.len() <= spec_entry_size(metas) - 8);
    assert(n <= 15_992);
    assert(0 <= cap * spec_entry_size(metas.take(n)) <= 2000 * 16_000) by (nonlinear_arith)
        requires
            1 <= cap <= 2000,
            0 <= spec_entry_size(metas.take(n)) <= 16_000,
    ;
    assert(n * 0x4000 <= 15_992 * 0x4000) by (nonlinear_arith)
        requires
            0 <= n <= 15_992,
    ;
}

/// Entry sizes are never negative.
pub proof fn lemma_entry_nonneg(metas: Seq<CmpMeta>)
    ensures
        spec_entry_size(metas) >= 8,
    decreases metas.len(),
{
    if metas.len() > 0 {
        lemma_entry_nonneg(metas.drop_last());
    }
}

/// How many bytes per entity the components of `items` that `types`
/// does not already store would add to an entry.
pub open spec fn spec_added_size(types: Seq<CmpMeta>, items: Seq<CmpData>) -> int
    decreases items.len(),
{
    if items.len() == 0 {
        0
    } else {
        spec_added_size(types, items.drop_last()) + (if type_has(
            types,
            items.last().meta.id.0,
        ) {
            0int
        } else {
            items.last().meta.size as int
        })
    }
}

/// Looking a component type up among a set's values or among its
/// descriptors finds the same thing.
pub proof fn lemma_set_type_lookup(items: Seq<CmpData>, t: u64)
    requires
        forall|i: int, j: int|
            0 <= i < j < items.len() ==> (#[trigger] items[i]).meta.id.0 != (
            #[trigger] items[j]).meta.id.0,
    ensures
        set_has_id(items, t) == type_has(metas_of(items), t),
        set_has_id(items, t) ==> {
            &&& 0 <= set_idx_of(items, t) < items.len()
            &&& items[set_idx_of(items, t)].meta.id.0 == t
            &&& set_idx_of(items, t) == type_idx(metas_of(items), t)
        },
{
    let metas = metas_of(items);
    assert(forall|i: int| 0 <= i < items.len() ==> (#[trigger] metas[i]) == items[i].meta);
    if set_has_id(items, t) {
        let i = set_idx_of(items, t);
        assert(0 <= i < items.len() && items[i].meta.id.0 == t);
        assert(metas[i].id.0 == t);
        assert(type_has(metas, t));
        assert forall|a: int, b: int|
            0 <= a < b < metas.len() implies (#[trigger] metas[a]).id.0 != (
        #[trigger] metas[b]).id.0 by {
            assert(metas[a] == items[a].meta && metas[b] == items[b].meta);
        }
        lemma_type_idx_unique(metas, t);
        assert(type_idx(metas, t) == i);
    }
    if type_has(metas, t) {
        let i = type_idx(metas, t);
        assert(0 <= i < metas.len() && metas[i].id.0 == t);
        assert(items[i].meta.id.0 == t);
        assert(set_has_id(items, t));
    }
}

/// With pairwise distinct ids, the chosen index of a present type is
/// the one and only column carrying it.
pub proof fn lemma_type_idx_unique(metas: Seq<CmpMeta>, t: u64)
    requires
        forall|i: int, j: int|
            0 <= i < j < metas.len() ==> (#[trigger] metas[i]).id.0 != (#[trigger] metas[j]).id.0,
        type_has(metas, t),
    ensures
        0 <= type_idx(metas, t) < metas.len(),
        metas[type_idx(metas, t)].id.0 == t,
        forall|k: int| 0 <= k < metas.len() && (#[trigger] metas[k]).id.0 == t ==> k == type_idx(
            metas,
            t,
        ),
{
    let i = type_idx(metas, t);
    assert(0 <= i < metas.len() && metas[i].id.0 == t);
    assert forall|k: int|
        0 <= k < metas.len() && (#[trigger] metas[k]).id.0 == t implies k == i by {
        if k < i {
            assert(metas[k].id.0 != metas[i].id.0);
        } else if k > i {
            assert(metas[i].id.0 != metas[k].id.0);
        }
    }
}

} // verus!
