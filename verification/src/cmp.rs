use vstd::prelude::*;

verus! {

use vstd::multiset::Multiset;

broadcast use vstd::multiset::group_multiset_axioms;

/// Unique identifier for a component type.
///
/// The host must hand out ids that are bijective with component types:
/// two distinct component types never share an id, and one id always
/// describes the same size and alignment.
#[derive(Debug, Copy, Clone, PartialEq, Eq, Structural, Hash)]
pub struct CmpId(pub u64);

impl CmpId {
    /// Create a component id from its raw integer.
    pub fn from_u64(n: u64) -> (r: CmpId)
        ensures
            r.0 == n,
    {
        CmpId(n)
    }
}

/// Meta-data about a component type: its id plus the size and alignment
/// of one instance, in bytes.
#[derive(Debug, Copy, Clone, PartialEq, Eq, Structural)]
pub struct CmpMeta {
    /// unique identifier of the component type
    pub id: CmpId,
    /// size, in bytes, of one instance
    pub size: u32,
    /// alignment, in bytes, of one instance (a power of two)
    pub align: u32,
}

/// `a` is a power of two.
pub open spec fn is_pow2(a: int) -> bool
    decreases a,
{
    if a <= 0 {
        false
    } else if a == 1 {
        true
    } else {
        a % 2 == 0 && is_pow2(a / 2)
    }
}

/// A component type descriptor the engine can lay chunks out with: a
/// power-of-two alignment no wider than a chunk's worth of padding can
/// absorb, and at least one byte of payload.
pub open spec fn meta_wf(m: CmpMeta) -> bool {
    &&& is_pow2(m.align as int)
    &&& m.align <= 16_384
    &&& m.size >= 1
}

/// The canonical component order: greatest alignment first, with the
/// component id as a deterministic tie-breaker.
pub open spec fn cmp_precedes(a: CmpMeta, b: CmpMeta) -> bool {
    a.align > b.align || (a.align == b.align && a.id.0 < b.id.0)
}

impl CmpMeta {
    /// Build a descriptor from raw parts.
    pub fn new(id: CmpId, size: u32, align: u32) -> (r: CmpMeta)
        ensures
            r == (CmpMeta { id, size, align }),
    {
        CmpMeta { id, size, align }
    }

    /// get this component type's unique identifier
    pub fn id(&self) -> (r: CmpId)
        ensures
            r == self.id,
    {
        self.id
    }

    /// get this component type's size, in bytes
    pub fn size_u32(&self) -> (r: u32)
        ensures
            r == self.size,
    {
        self.size
    }

    /// get this component type's alignment, in bytes
    pub fn alignment_u32(&self) -> (r: u32)
        ensures
            r == self.align,
    {
        self.align
    }

    /// get this component type's size, in bytes
    pub fn size(&self) -> (r: usize)
        ensures
            r == self.size as usize,
    {
        self.size as usize
    }

    /// get this component type's alignment, in bytes
    pub fn alignment(&self) -> (r: usize)
        ensures
            r == self.align as usize,
    {
        self.align as usize
    }

    /// Does `self` come strictly before `other` in the canonical order?
    pub fn precedes(&self, other: &CmpMeta) -> (r: bool)
        ensures
            r == cmp_precedes(*self, *other),
    {
        self.align > other.align || (self.align == other.align && self.id.0 < other.id.0)
    }
}

/// One component value: its type descriptor plus the bytes of one instance.
#[derive(Debug)]
pub struct CmpData {
    /// descriptor of the component's type
    pub meta: CmpMeta,
    /// the bytes of one instance; exactly `meta.size` of them
    pub bytes: Vec<u8>,
}

/// Errors the engine reports for data-driven failures.
#[derive(Debug, Copy, Clone, PartialEq, Eq, Structural)]
pub enum EcsError {
    /// the same component type appears twice in one set
    DuplicateComponentInSet,
    /// a component has no bytes at all, or the set's entry does not fit
    /// the chunk byte budget
    EmptyOrOversizedComponent,
}

/// Bytes one entity of this set occupies, id column included.
pub open spec fn spec_entry_size(metas: Seq<CmpMeta>) -> int
    decreases metas.len(),
{
    if metas.len() == 0 {
        8
    } else {
        spec_entry_size(metas.drop_last()) + metas.last().size
    }
}

/// The canonical shape of a component-type sequence: strictly sorted in
/// the canonical order, duplicate-free by id, every descriptor usable,
/// and one entity's worth of data within the chunk byte budget.
pub open spec fn types_wf(metas: Seq<CmpMeta>) -> bool {
    &&& forall|i: int, j: int|
        0 <= i < j < metas.len() ==> cmp_precedes(#[trigger] metas[i], #[trigger] metas[j])
    &&& forall|i: int, j: int|
        0 <= i < j < metas.len() ==> (#[trigger] metas[i]).id.0 != (#[trigger] metas[j]).id.0
    &&& forall|i: int| 0 <= i < metas.len() ==> meta_wf(#[trigger] metas[i])
    &&& spec_entry_size(metas) <= 16_000
}

/// The descriptors of a component-data sequence, in the same order.
pub open spec fn metas_of(items: Seq<CmpData>) -> Seq<CmpMeta> {
    items.map_values(|d: CmpData| d.meta)
}

/// A tuple of components in canonical shape: the descriptors satisfy
/// `types_wf` and every payload has its declared size.
pub open spec fn set_wf(items: Seq<CmpData>) -> bool {
    &&& types_wf(metas_of(items))
    &&& forall|i: int|
        0 <= i < items.len() ==> (#[trigger] items[i]).bytes@.len() == items[i].meta.size
}

/// Some element of `items` carries component type `t`.
pub open spec fn set_has_id(items: Seq<CmpData>, t: u64) -> bool {
    exists|i: int| 0 <= i < items.len() && (#[trigger] items[i]).meta.id.0 == t
}

/// The index of the element of `items` that carries component type `t`.
pub open spec fn set_idx_of(items: Seq<CmpData>, t: u64) -> int {
    choose|i: int| 0 <= i < items.len() && (#[trigger] items[i]).meta.id.0 == t
}

/// Two elements of `items` carry the same component type.
pub open spec fn has_dup_id(items: Seq<CmpData>) -> bool {
    exists|i: int, j: int|
        0 <= i < j < items.len() && (#[trigger] items[i]).meta.id.0 == (
        #[trigger] items[j]).meta.id.0
}

/// Some element of `items` has a payload of no bytes at all.
pub open spec fn has_empty_cmp(items: Seq<CmpData>) -> bool {
    exists|i: int| 0 <= i < items.len() && (#[trigger] items[i]).meta.size == 0
}

/// The sorted ids of a descriptor sequence, used as the registry key.
pub open spec fn key_of(metas: Seq<CmpMeta>) -> Seq<u64> {
    metas.map_values(|m: CmpMeta| m.id.0)
}

/// Pairwise non-strict sortedness in the canonical order.
pub open spec fn sorted_le(items: Seq<CmpData>) -> bool {
    forall|i: int, j: int|
        0 <= i < j < items.len() ==> !cmp_precedes(
            #[trigger] items[j].meta,
            #[trigger] items[i].meta,
        )
}

/// A canonicalized, sorted, duplicate-free tuple of component values.
///
/// This is what `Scene::spawn` and `Scene::add` consume; the sorted
/// descriptor sequence doubles as the archetype registry key.
#[derive(Debug)]
pub struct ComponentSet {
    /// the component values, sorted by the canonical order
    pub items: Vec<CmpData>,
}

impl ComponentSet {
    /// All structural validity of the set in one word.
    pub open spec fn wf(&self) -> bool {
        set_wf(self.items@)
    }

    /// The set with no components at all.
    pub fn empty() -> (r: ComponentSet)
        ensures
            r.wf(),
            r.items@.len() == 0,
    {
        let r = ComponentSet { items: Vec::new() };
        proof {
            assert(metas_of(r.items@) =~= Seq::<CmpMeta>::empty());
        }
        r
    }

    /// returns the sorted component ids inside this set: the archetype
    /// registry key
    pub fn ty(&self) -> (r: Vec<u64>)
        ensures
            r@ == key_of(metas_of(self.items@)),
    {
        let mut r: Vec<u64> = Vec::new();
        let mut i: usize = 0;
        while i < self.items.len()
            invariant
                0 <= i <= self.items@.len(),
                r@.len() == i,
                forall|k: int| 0 <= k < i ==> r@[k] == key_of(metas_of(self.items@))[k],
            decreases self.items@.len() - i,
        {
            r.push(self.items[i].meta.id.0);
            i = i + 1;
        }
        proof {
            assert(r@ =~= key_of(metas_of(self.items@)));
        }
        r
    }

    /// returns a copy of the sorted descriptors inside this set
    pub fn metas(&self) -> (r: Vec<CmpMeta>)
        ensures
            r@ == metas_of(self.items@),
    {
        let mut r: Vec<CmpMeta> = Vec::new();
        let mut i: usize = 0;
        while i < self.items.len()
            invariant
                0 <= i <= self.items@.len(),
                r@.len() == i,
                forall|k: int| 0 <= k < i ==> r@[k] == metas_of(self.items@)[k],
            decreases self.items@.len() - i,
        {
            r.push(self.items[i].meta);
            i = i + 1;
        }
        proof {
            assert(r@ =~= metas_of(self.items@));
        }
        r
    }

    /// The position of component type `t` within this set, if the set
    /// carries it.
    #[verifier::loop_isolation(false)]
    pub fn find(&self, t: CmpId) -> (r: Option<usize>)
        requires
            self.wf(),
        ensures
            match r {
                Some(i) => set_has_id(self.items@, t.0) && i == set_idx_of(self.items@, t.0) && 0
                    <= i < self.items@.len() && self.items@[i as int].meta.id.0 == t.0,
                None => !set_has_id(self.items@, t.0),
            },
    {
        let mut i: usize = 0;
        while i < self.items.len()
            invariant
                0 <= i <= self.items@.len(),
                forall|k: int| 0 <= k < i ==> (#[trigger] self.items@[k]).meta.id.0 != t.0,
            decreases self.items@.len() - i,
        {
            if self.items[i].meta.id.0 == t.0 {
                proof {
                    assert(set_has_id(self.items@, t.0));
                    let j = set_idx_of(self.items@, t.0);
                    assert(0 <= j < self.items@.len() && self.items@[j].meta.id.0 == t.0);
                    assert(metas_of(self.items@)[j] == self.items@[j].meta);
                    assert(metas_of(self.items@)[i as int] == self.items@[i as int].meta);
                    if i as int != j {
                        assert(metas_of(self.items@)[i as int].id.0 != metas_of(
                            self.items@,
                        )[j].id.0);
                    }
                }
                return Some(i);
            }
            i = i + 1;
        }
        None
    }

    /// Canonicalize an arbitrarily ordered tuple of component values:
    /// sort by the canonical order, reject empty payloads, oversized
    /// entries and duplicated component types.
    #[verifier::loop_isolation(false)]
    pub fn new(items: Vec<CmpData>) -> (r: Result<ComponentSet, EcsError>)
        requires
            forall|i: int|
                0 <= i < items@.len() ==> is_pow2((#[trigger] items@[i]).meta.align as int)
                    && items@[i].meta.align <= 16_384,
            forall|i: int|
                0 <= i < items@.len() ==> (#[trigger] items@[i]).bytes@.len()
                    == items@[i].meta.size,
        ensures
            match r {
                Ok(s) => {
                    &&& s.wf()
                    &&& s.items@.to_multiset() == items@.to_multiset()
                    &&& s.items@.len() == items@.len()
                },
                Err(e) => {
                    ||| e == EcsError::DuplicateComponentInSet
                    ||| e == EcsError::EmptyOrOversizedComponent
                },
            },
            (r is Err) <==> {
                ||| has_dup_id(items@)
                ||| has_empty_cmp(items@)
                ||| spec_entry_size(metas_of(items@)) > 16_000
            },
    {
        let ghost input = items@;
        let mut items = items;
        let mut sorted: Vec<CmpData> = Vec::new();

        // entry size and payload emptiness are order-independent; check
        // them up front over the input as given
        let mut entry: u64 = 8;
        let mut i: usize = 0;
        while i < items.len()
            invariant
                0 <= i <= input.len(),
                items@ == input,
                entry == spec_entry_size(metas_of(input.take(i as int))),
                entry <= 16_000,
                forall|k: int| 0 <= k < i ==> (#[trigger] input[k]).meta.size >= 1,
            decreases input.len() - i,
        {
            let sz = items[i].meta.size;
            if sz == 0 {
                proof {
                    assert(0 <= i < input.len() && (input[i as int]).meta.size == 0);
                    assert(has_empty_cmp(input));
                }
                return Err(EcsError::EmptyOrOversizedComponent);
            }
            proof {
                assert(metas_of(input.take(i + 1)).drop_last() =~= metas_of(input.take(i as int)));
                assert(metas_of(input.take(i + 1)).last() == input[i as int].meta);
            }
            entry = entry + (sz as u64);
            if entry > 16_000 {
                proof {
                    assert(metas_of(input).take(i + 1) =~= metas_of(input.take(i + 1)));
                    lemma_entry_size_prefix_le(metas_of(input), i + 1);
                    assert(spec_entry_size(metas_of(input.take(i + 1))) <= spec_entry_size(
                        metas_of(input),
                    ));
                    assert(entry == spec_entry_size(metas_of(input.take(i + 1))));
                    assert(spec_entry_size(metas_of(input)) > 16_000);
                }
                return Err(EcsError::EmptyOrOversizedComponent);
            }
            i = i + 1;
        }
        proof {
            assert(input.take(input.len() as int) =~= input);
            lemma_to_multiset_empty(sorted@);
            items@.to_multiset_ensures();
            assert(sorted@.to_multiset().add(items@.to_multiset()) =~= input.to_multiset());
        }

        // insertion sort by the canonical order
        while items.len() > 0
            invariant
                sorted_le(sorted@),
                sorted@.to_multiset().add(items@.to_multiset()) =~= input.to_multiset(),
                forall|i: int|
                    0 <= i < items@.len() ==> (#[trigger] items@[i]).bytes@.len()
                        == items@[i].meta.size,
                forall|i: int|
                    0 <= i < items@.len() ==> is_pow2((#[trigger] items@[i]).meta.align as int)
                        && items@[i].meta.align <= 16_384,
                forall|i: int| 0 <= i < items@.len() ==> (#[trigger] items@[i]).meta.size >= 1,
                forall|i: int|
                    0 <= i < sorted@.len() ==> (#[trigger] sorted@[i]).bytes@.len()
                        == sorted@[i].meta.size,
                forall|i: int|
                    0 <= i < sorted@.len() ==> is_pow2((#[trigger] sorted@[i]).meta.align as int)
                        && sorted@[i].meta.align <= 16_384,
                forall|i: int| 0 <= i < sorted@.len() ==> (#[trigger] sorted@[i]).meta.size >= 1,
                sorted@.len() + items@.len() == input.len(),
            decreases items@.len(),
        {
            let ghost cur = items@;
            let x = items.pop().unwrap();
            proof {
                items@.to_multiset_ensures();
                assert(items@.push(x) =~= cur);
                assert(cur.to_multiset() =~= items@.to_multiset().insert(x));
            }
            let ghost before = sorted@;
            insert_sorted(&mut sorted, x);
            proof {
                let p = choose|p: int|
                    0 <= p <= before.len() && sorted@ == #[trigger] before.insert(p, x);
                lemma_to_multiset_insert_at(before, p, x);
                assert forall|i: int| 0 <= i < sorted@.len() implies (
                #[trigger] sorted@[i]).bytes@.len() == sorted@[i].meta.size && is_pow2(
                    sorted@[i].meta.align as int,
                ) && sorted@[i].meta.align <= 16_384 && sorted@[i].meta.size >= 1 by {
                    if i < p {
                        assert(sorted@[i] == before[i]);
                    } else if i > p {
                        assert(sorted@[i] == before[i - 1]);
                    } else {
                        assert(sorted@[i] == x);
                    }
                }
            }
        }
        proof {
            items@.to_multiset_ensures();
            assert(items@.to_multiset().len() == 0);
            assert(sorted@.to_multiset() =~= input.to_multiset());
        }

        // reject duplicated component ids
        let mut i: usize = 0;
        while i < sorted.len()
            invariant
                0 <= i <= sorted@.len(),
                forall|a: int, b: int|
                    0 <= a < b < sorted@.len() && a < i ==> (#[trigger] sorted@[a]).meta.id.0 != (
                    #[trigger] sorted@[b]).meta.id.0,
                sorted@.to_multiset() == input.to_multiset(),
            decreases sorted@.len() - i,
        {
            let mut j: usize = i + 1;
            while j < sorted.len()
                invariant
                    0 <= i < j <= sorted@.len(),
                    forall|b: int|
                        i < b < j ==> (#[trigger] sorted@[b]).meta.id.0
                            != sorted@[i as int].meta.id.0,
                    sorted@.to_multiset() == input.to_multiset(),
                decreases sorted@.len() - j,
            {
                if sorted[j].meta.id.0 == sorted[i].meta.id.0 {
                    proof {
                        lemma_multiset_dup_pair(input, sorted@, i as int, j as int);
                        assert(has_dup_id(input));
                    }
                    return Err(EcsError::DuplicateComponentInSet);
                }
                j = j + 1;
            }
            i = i + 1;
        }

        let r = ComponentSet { items: sorted };
        proof {
            lemma_sorted_distinct_strict(r.items@);
            lemma_entry_size_permutation(input, r.items@);
            assert(!has_dup_id(input)) by {
                if has_dup_id(input) {
                    let (a, b) = choose|a: int, b: int|
                        0 <= a < b < input.len() && (#[trigger] input[a]).meta.id.0 == (
                        #[trigger] input[b]).meta.id.0;
                    lemma_multiset_dup_pair(r.items@, input, a, b);
                }
            }
            assert(!has_empty_cmp(input));
            input.to_multiset_ensures();
            r.items@.to_multiset_ensures();
            assert(r.items@.len() == input.len());
            assert forall|i: int| 0 <= i < metas_of(r.items@).len() implies meta_wf(
                #[trigger] metas_of(r.items@)[i],
            ) by {
                assert(metas_of(r.items@)[i] == r.items@[i].meta);
            }
        }
        Ok(r)
    }
}

/// An element-for-element copy of a byte vector.
pub fn copy_bytes(v: &Vec<u8>) -> (r: Vec<u8>)
    ensures
        r@ == v@,
{
    let mut r: Vec<u8> = Vec::new();
    let mut i: usize = 0;
    while i < v.len()
        invariant
            0 <= i <= v@.len(),
            r@.len() == i,
            forall|k: int| 0 <= k < i ==> r@[k] == v@[k],
        decreases v@.len() - i,
    {
        r.push(v[i]);
        i = i + 1;
    }
    proof {
        assert(r@ =~= v@);
    }
    r
}

/// Insert one component value into a sorted vector, keeping it sorted.
fn insert_sorted(sorted: &mut Vec<CmpData>, x: CmpData)
    requires
        sorted_le(old(sorted)@),
    ensures
        sorted_le(final(sorted)@),
        exists|p: int| 0 <= p <= old(sorted)@.len() && final(sorted)@ == #[trigger] old(
            sorted,
        )@.insert(p, x),
{
    let ghost orig = sorted@;
    let mut p: usize = 0;
    while p < sorted.len() && !x.meta.precedes(&sorted[p].meta)
        invariant
            0 <= p <= sorted@.len(),
            sorted@ == orig,
            forall|i: int| 0 <= i < p ==> !cmp_precedes(x.meta, (#[trigger] sorted@[i]).meta),
        decreases sorted@.len() - p,
    {
        p = p + 1;
    }
    let ghost pos = p as int;
    sorted.insert(p, x);
    proof {
        let s2 = sorted@;
        assert forall|i: int, j: int| 0 <= i < j < s2.len() implies !cmp_precedes(
            #[trigger] s2[j].meta,
            #[trigger] s2[i].meta,
        ) by {
            if j < pos {
                assert(s2[i] == orig[i] && s2[j] == orig[j]);
            } else if i > pos {
                assert(s2[i] == orig[i - 1] && s2[j] == orig[j - 1]);
            } else if i < pos && j == pos {
                assert(s2[i] == orig[i] && s2[j] == x);
            } else if i < pos && j > pos {
                assert(s2[i] == orig[i] && s2[j] == orig[j - 1]);
            } else if i == pos && j > pos {
                // x was inserted before the first element it precedes;
                // everything at or past `pos` does not precede x
                assert(s2[i] == x && s2[j] == orig[j - 1]);
                if pos < orig.len() {
                    assert(cmp_precedes(x.meta, orig[pos].meta));
                    assert(!cmp_precedes(orig[j - 1].meta, orig[pos].meta) || j - 1 == pos);
                }
            }
        }
        assert(0 <= pos <= orig.len() && sorted@ == orig.insert(pos, x));
    }
}

/// Entry size never shrinks as a descriptor sequence grows.
pub(crate) proof fn lemma_entry_size_prefix_le(metas: Seq<CmpMeta>, n: int)
    requires
        0 <= n <= metas.len(),
    ensures
        spec_entry_size(metas.take(n)) <= spec_entry_size(metas),
    decreases metas.len(),
{
    if n == metas.len() {
        assert(metas.take(n) =~= metas);
    } else {
        let m1 = metas.drop_last();
        assert(metas.take(n) =~= m1.take(n));
        lemma_entry_size_prefix_le(m1, n);
    }
}

/// An empty sequence converts to the empty multiset.
proof fn lemma_to_multiset_empty<A>(s: Seq<A>)
    requires
        s.len() == 0,
    ensures
        s.to_multiset() =~= Multiset::<A>::empty(),
{
    s.to_multiset_ensures();
    assert forall|a: A| s.to_multiset().count(a) == Multiset::<A>::empty().count(a) by {
        assert(!s.contains(a));
    }
}

/// Inserting anywhere in a sequence inserts into its multiset.
proof fn lemma_to_multiset_insert_at<A>(s: Seq<A>, p: int, x: A)
    requires
        0 <= p <= s.len(),
    ensures
        s.insert(p, x).to_multiset() =~= s.to_multiset().insert(x),
{
    let t = s.insert(p, x);
    t.to_multiset_ensures();
    s.to_multiset_ensures();
    assert(t.remove(p) =~= s);
    assert(t[p] == x);
    assert(t.to_multiset().remove(x) =~= s.to_multiset());
    assert(t.contains(x));
    assert(t.to_multiset().count(x) > 0);
    assert forall|y: A| t.to_multiset().count(y) == s.to_multiset().insert(x).count(y) by {
        if y == x {
            assert(t.to_multiset().remove(x).count(x) == t.to_multiset().count(x) - 1);
        } else {
            assert(t.to_multiset().remove(x).count(y) == t.to_multiset().count(y));
        }
    }
}

/// A non-strictly sorted sequence with pairwise distinct ids is strictly
/// sorted in the canonical order.
proof fn lemma_sorted_distinct_strict(items: Seq<CmpData>)
    requires
        sorted_le(items),
        forall|a: int, b: int|
            0 <= a < b < items.len() ==> (#[trigger] items[a]).meta.id.0 != (
            #[trigger] items[b]).meta.id.0,
    ensures
        forall|i: int, j: int|
            0 <= i < j < metas_of(items).len() ==> cmp_precedes(
                #[trigger] metas_of(items)[i],
                #[trigger] metas_of(items)[j],
            ),
        forall|i: int, j: int|
            0 <= i < j < metas_of(items).len() ==> (#[trigger] metas_of(items)[i]).id.0 != (
            #[trigger] metas_of(items)[j]).id.0,
{
    assert forall|i: int, j: int| 0 <= i < j < metas_of(items).len() implies cmp_precedes(
        #[trigger] metas_of(items)[i],
        #[trigger] metas_of(items)[j],
    ) && metas_of(items)[i].id.0 != metas_of(items)[j].id.0 by {
        assert(metas_of(items)[i] == items[i].meta);
        assert(metas_of(items)[j] == items[j].meta);
        assert(!cmp_precedes(items[j].meta, items[i].meta));
        assert(items[i].meta.id.0 != items[j].meta.id.0);
    }
}

/// Entry size is a sum over a multiset, so any permutation has the same one.
proof fn lemma_entry_size_permutation(a: Seq<CmpData>, b: Seq<CmpData>)
    requires
        a.to_multiset() == b.to_multiset(),
    ensures
        spec_entry_size(metas_of(a)) == spec_entry_size(metas_of(b)),
    decreases a.len(),
{
    a.to_multiset_ensures();
    b.to_multiset_ensures();
    if a.len() == 0 {
        assert(b.to_multiset().len() == 0);
        assert(metas_of(a) =~= Seq::<CmpMeta>::empty());
        assert(metas_of(b) =~= Seq::<CmpMeta>::empty());
    } else {
        let x = a.last();
        assert(a[a.len() - 1] == x);
        assert(a.contains(x));
        assert(a.to_multiset().count(x) > 0);
        assert(b.to_multiset().count(x) > 0);
        let k = choose|k: int| 0 <= k < b.len() && b[k] == x;
        assert(b.contains(x));
        let a1 = a.drop_last();
        let b1 = b.remove(k);
        assert(a.remove(a.len() - 1) =~= a1);
        assert(a1.to_multiset() =~= a.to_multiset().remove(x));
        assert(b1.to_multiset() =~= b.to_multiset().remove(x));
        lemma_entry_size_permutation(a1, b1);
        lemma_entry_size_remove(b, k);
        assert(metas_of(a).drop_last() =~= metas_of(a1));
        assert(metas_of(a).last() == x.meta);
    }
}

/// Removing one element lowers the entry size by that element's size.
proof fn lemma_entry_size_remove(b: Seq<CmpData>, k: int)
    requires
        0 <= k < b.len(),
    ensures
        spec_entry_size(metas_of(b)) == spec_entry_size(metas_of(b.remove(k))) + b[k].meta.size,
    decreases b.len(),
{
    if k == b.len() - 1 {
        assert(metas_of(b.remove(k)) =~= metas_of(b).drop_last());
        assert(metas_of(b).last() == b[k].meta);
    } else {
        let b1 = b.drop_last();
        assert(metas_of(b).drop_last() =~= metas_of(b1));
        assert(metas_of(b).last() == b.last().meta);
        lemma_entry_size_remove(b1, k);
        assert(b.remove(k).drop_last() =~= b1.remove(k));
        assert(metas_of(b.remove(k)).drop_last() =~= metas_of(b1.remove(k)));
        assert(metas_of(b.remove(k)).last() == b.last().meta);
    }
}

/// The values of a well-formed set carry pairwise distinct ids.
pub proof fn lemma_set_distinct_ids(items: Seq<CmpData>)
    requires
        types_wf(metas_of(items)),
    ensures
        forall|i: int, j: int|
            0 <= i < j < items.len() ==> (#[trigger] items[i]).meta.id.0 != (
            #[trigger] items[j]).meta.id.0,
{
    assert forall|i: int, j: int|
        0 <= i < j < items.len() implies (#[trigger] items[i]).meta.id.0 != (
    #[trigger] items[j]).meta.id.0 by {
        assert(metas_of(items)[i] == items[i].meta);
        assert(metas_of(items)[j] == items[j].meta);
    }
}

/// Across equal multisets with duplicate-free ids, looking a component
/// type up by id finds the same value.
pub proof fn lemma_set_lookup_permutation(a: Seq<CmpData>, b: Seq<CmpData>, t: u64)
    requires
        a.to_multiset() == b.to_multiset(),
        forall|i: int, j: int|
            0 <= i < j < b.len() ==> (#[trigger] b[i]).meta.id.0 != (#[trigger] b[j]).meta.id.0,
    ensures
        set_has_id(a, t) == set_has_id(b, t),
        set_has_id(a, t) ==> a[set_idx_of(a, t)] == b[set_idx_of(b, t)],
{
    a.to_multiset_ensures();
    b.to_multiset_ensures();
    if set_has_id(a, t) {
        let i = set_idx_of(a, t);
        assert(0 <= i < a.len() && a[i].meta.id.0 == t);
        assert(a.contains(a[i]));
        assert(b.to_multiset().count(a[i]) > 0);
        assert(b.contains(a[i]));
        let j = choose|j: int| 0 <= j < b.len() && b[j] == a[i];
        assert(set_has_id(b, t));
        let j2 = set_idx_of(b, t);
        assert(0 <= j2 < b.len() && b[j2].meta.id.0 == t);
        if j != j2 {
            assert(b[j].meta.id.0 != b[j2].meta.id.0);
        }
        assert(a[i] == b[j2]);
    }
    if set_has_id(b, t) {
        let j = set_idx_of(b, t);
        assert(0 <= j < b.len() && b[j].meta.id.0 == t);
        assert(b.contains(b[j]));
        assert(a.to_multiset().count(b[j]) > 0);
        assert(a.contains(b[j]));
        let i = choose|i: int| 0 <= i < a.len() && a[i] == b[j];
        assert(set_has_id(a, t));
    }
}

/// A duplicated id in one sequence traces back, through an equal
/// multiset, to a duplicated id in the other.
proof fn lemma_multiset_dup_pair(other: Seq<CmpData>, dup: Seq<CmpData>, i: int, j: int)
    requires
        other.to_multiset() == dup.to_multiset(),
        0 <= i < j < dup.len(),
        dup[i].meta.id.0 == dup[j].meta.id.0,
    ensures
        exists|a: int, b: int|
            0 <= a < b < other.len() && (#[trigger] other[a]).meta.id.0 == (
            #[trigger] other[b]).meta.id.0,
{
    other.to_multiset_ensures();
    dup.to_multiset_ensures();
    let x = dup[i];
    let y = dup[j];
    if x == y {
        assert(dup.remove(i).to_multiset() =~= dup.to_multiset().remove(x));
        dup.remove(i).to_multiset_ensures();
        assert(dup.remove(i)[j - 1] == y);
        assert(dup.remove(i).contains(y));
        assert(dup.remove(i).to_multiset().count(x) > 0);
        assert(dup.to_multiset().count(x) >= 2);
        assert(other.to_multiset().count(x) >= 2);
        assert(other.to_multiset().count(x) > 0);
        let a = choose|a: int| 0 <= a < other.len() && other[a] == x;
        assert(other.contains(x));
        assert(other.remove(a).to_multiset() =~= other.to_multiset().remove(x));
        other.remove(a).to_multiset_ensures();
        assert(other.remove(a).to_multiset().count(x) > 0);
        let b0 = choose|b0: int| 0 <= b0 < other.remove(a).len() && other.remove(a)[b0] == x;
        assert(other.remove(a).contains(x));
        if b0 < a {
            assert(other[b0] == x);
            assert(other[b0].meta.id.0 == other[a].meta.id.0);
        } else {
            assert(other[b0 + 1] == x);
            assert(other[a].meta.id.0 == other[b0 + 1].meta.id.0);
        }
    } else {
        assert(dup.contains(x));
        assert(dup.contains(y));
        assert(other.to_multiset().count(x) > 0);
        assert(other.to_multiset().count(y) > 0);
        let a = choose|a: int| 0 <= a < other.len() && other[a] == x;
        assert(other.contains(x));
        assert(other.contains(y));
        let b = choose|b: int| 0 <= b < other.len() && other[b] == y;
        assert(other[a].meta.id.0 == other[b].meta.id.0);
        assert(a != b);
        if a < b {
            assert(0 <= a < b < other.len() && other[a].meta.id.0 == other[b].meta.id.0);
        } else {
            assert(0 <= b < a < other.len() && other[b].meta.id.0 == other[a].meta.id.0);
        }
    }
}

} // verus!
