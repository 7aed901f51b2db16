use vstd::prelude::*;

verus! {

use crate::archetype::Archetype;
use crate::cmp::{key_of, types_wf, CmpMeta, ComponentSet};

/// Structure that maps a sorted component-id vector to the archetype
/// storing that combination, in an append-only vector: archetype
/// indices stay valid for the registry's whole lifetime.
#[derive(Debug)]
pub struct ArchetypeMap {
    /// complete list of archetypes; the collection can be expanded but
    /// is never shrunk, therefore elements are 'pinned' and an index
    /// can safely reference an archetype
    pub arch: Vec<Archetype>,
    /// the sorted component-id key of each archetype, kept parallel to
    /// `arch`
    pub keys: Vec<Vec<u64>>,
}

/// The host hands out component ids bijectively: a descriptor passed
/// in always agrees with any already-registered descriptor that shares
/// its id. Identical ids across sets are treated as the same type.
pub open spec fn consistent_with_registry(arch: Seq<Archetype>, metas: Seq<CmpMeta>) -> bool {
    forall|i: int, j: int, k: int|
        0 <= i < arch.len() && 0 <= j < arch[i].meta.types@.len() && 0 <= k < metas.len() && (
        #[trigger] arch[i].meta.types@[j]).id.0 == (#[trigger] metas[k]).id.0 ==> arch[i].meta.types@[j]
            == metas[k]
}

/// Every pair of registered descriptors agrees: across all archetypes,
/// descriptors sharing a component id are identical. This is the
/// cumulative form of the host's id contract.
pub open spec fn registry_consistent(arch: Seq<Archetype>) -> bool {
    forall|i: int, j: int, i2: int, j2: int|
        0 <= i < arch.len() && 0 <= j < arch[i].meta.types@.len() && 0 <= i2 < arch.len() && 0 <= j2
            < arch[i2].meta.types@.len() && (#[trigger] arch[i].meta.types@[j]).id.0 == (
        #[trigger] arch[i2].meta.types@[j2]).id.0 ==> arch[i].meta.types@[j]
            == arch[i2].meta.types@[j2]
}

/// Some registered archetype has exactly this key.
pub open spec fn key_found(keys: Seq<Vec<u64>>, key: Seq<u64>) -> bool {
    exists|i: int| 0 <= i < keys.len() && (#[trigger] keys[i])@ == key
}

/// The index of the archetype registered under this key.
pub open spec fn key_index(keys: Seq<Vec<u64>>, key: Seq<u64>) -> int {
    choose|i: int| 0 <= i < keys.len() && (#[trigger] keys[i])@ == key
}

impl ArchetypeMap {
    /// The registry invariant: keys and archetypes run in parallel,
    /// every archetype knows its own index, its key is derived from its
    /// sorted types, and no two archetypes share a key.
    ///
    /// Together these say that two component sets map to the same
    /// archetype exactly when their sorted type-id sequences are equal.
    pub open spec fn wf(&self) -> bool {
        &&& self.keys@.len() == self.arch@.len()
        &&& forall|i: int| 0 <= i < self.arch@.len() ==> (#[trigger] self.arch@[i]).wf()
        &&& forall|i: int| 0 <= i < self.arch@.len() ==> (#[trigger] self.arch@[i]).meta.id == i
        &&& forall|i: int|
            0 <= i < self.arch@.len() ==> (#[trigger] self.keys@[i])@ == key_of(
                self.arch@[i].meta.types@,
            )
        &&& forall|i: int, j: int|
            0 <= i < j < self.arch@.len() ==> (#[trigger] self.keys@[i])@ != (
            #[trigger] self.keys@[j])@
        &&& registry_consistent(self.arch@)
    }

    /// An empty registry.
    pub fn new() -> (r: ArchetypeMap)
        ensures
            r.wf(),
            r.arch@.len() == 0,
    {
        ArchetypeMap { arch: Vec::new(), keys: Vec::new() }
    }

    /// get all the archetypes within this map, in order of their
    /// indices: `map.inner()[loc.archetype()]` is the archetype an
    /// `EntityLocation` points into
    pub fn inner(&self) -> (r: &Vec<Archetype>)
        ensures
            r == &self.arch,
    {
        &self.arch
    }

    /// get all the archetypes within this map, mutably; the caller is
    /// responsible for keeping the registry invariant intact
    pub fn inner_mut(&mut self) -> (r: &mut Vec<Archetype>)
        ensures
            *r == old(self).arch,
            final(self).arch == *final(r),
            final(self).keys == old(self).keys,
    {
        &mut self.arch
    }

    /// get an archetype by its sorted component-id key, if the
    /// combination has been registered
    pub fn get(&self, ty: &Vec<u64>) -> (r: Option<&Archetype>)
        requires
            self.wf(),
        ensures
            match r {
                Some(a) => key_found(self.keys@, ty@) && a == &self.arch@[key_index(
                    self.keys@,
                    ty@,
                )],
                None => !key_found(self.keys@, ty@),
            },
    {
        match self.find(ty) {
            Some(i) => Some(&self.arch[i]),
            None => None,
        }
    }

    /// The registry slot holding the archetype with this key, if any.
    #[verifier::loop_isolation(false)]
    fn find(&self, ty: &Vec<u64>) -> (r: Option<usize>)
        requires
            self.wf(),
        ensures
            match r {
                Some(i) => {
                    &&& key_found(self.keys@, ty@)
                    &&& i == key_index(self.keys@, ty@)
                    &&& 0 <= i < self.arch@.len()
                    &&& self.keys@[i as int]@ == ty@
                },
                None => !key_found(self.keys@, ty@),
            },
    {
        let mut i: usize = 0;
        while i < self.keys.len()
            invariant
                0 <= i <= self.keys@.len(),
                forall|k: int| 0 <= k < i ==> (#[trigger] self.keys@[k])@ != ty@,
            decreases self.keys@.len() - i,
        {
            if ids_eq(&self.keys[i], ty) {
                proof {
                    assert(key_found(self.keys@, ty@));
                    lemma_key_index_unique(self.keys@, ty@, i as int);
                }
                return Some(i);
            }
            i = i + 1;
        }
        None
    }

    /// get an archetype's index for this component set, registering a
    /// new archetype when the combination is seen for the first time
    pub fn get_or_insert(&mut self, set: &ComponentSet) -> (r: usize)
        requires
            old(self).wf(),
            set.wf(),
            consistent_with_registry(old(self).arch@, crate::cmp::metas_of(set.items@)),
        ensures
            final(self).wf(),
            r < final(self).arch@.len(),
            final(self).arch@[r as int].meta.types@ == crate::cmp::metas_of(set.items@),
            key_found(old(self).keys@, key_of(crate::cmp::metas_of(set.items@))) ==> *final(self)
                == *old(self) && r == key_index(
                old(self).keys@,
                key_of(crate::cmp::metas_of(set.items@)),
            ),
            !key_found(old(self).keys@, key_of(crate::cmp::metas_of(set.items@))) ==> {
                &&& r == old(self).arch@.len()
                &&& final(self).arch@.len() == old(self).arch@.len() + 1
                &&& forall|i: int|
                    0 <= i < old(self).arch@.len() ==> #[trigger] final(self).arch@[i] == old(
                        self,
                    ).arch@[i]
                &&& final(self).arch@[r as int].chunks@.len() == 0
            },
    {
        let metas = set.metas();
        self.get_or_insert_dyn(&metas)
    }

    /// see `ArchetypeMap::get_or_insert`
    ///
    /// the _dyn flavor takes the sorted component descriptors directly
    pub fn get_or_insert_dyn(&mut self, metas: &Vec<CmpMeta>) -> (r: usize)
        requires
            old(self).wf(),
            types_wf(metas@),
            consistent_with_registry(old(self).arch@, metas@),
        ensures
            final(self).wf(),
            r < final(self).arch@.len(),
            final(self).arch@[r as int].meta.types@ == metas@,
            key_found(old(self).keys@, key_of(metas@)) ==> *final(self) == *old(self) && r
                == key_index(old(self).keys@, key_of(metas@)),
            !key_found(old(self).keys@, key_of(metas@)) ==> {
                &&& r == old(self).arch@.len()
                &&& final(self).arch@.len() == old(self).arch@.len() + 1
                &&& forall|i: int|
                    0 <= i < old(self).arch@.len() ==> #[trigger] final(self).arch@[i] == old(
                        self,
                    ).arch@[i]
                &&& final(self).arch@[r as int].chunks@.len() == 0
            },
    {
        let key = key_vec(metas);
        match self.find(&key) {
            Some(i) => {
                proof {
                    let t = self.arch@[i as int].meta.types@;
                    assert(self.keys@[i as int]@ == key_of(t));
                    assert(key_of(t) == key_of(metas@));
                    assert(t.len() == metas@.len());
                    assert forall|k: int| 0 <= k < t.len() implies t[k] == metas@[k] by {
                        assert(key_of(t)[k] == t[k].id.0);
                        assert(key_of(metas@)[k] == metas@[k].id.0);
                        assert(t[k].id.0 == metas@[k].id.0);
                    }
                    assert(t =~= metas@);
                }
                i
            },
            None => {
                let id = self.arch.len();
                let fresh = Archetype::new(id, metas);
                self.arch.push(fresh);
                self.keys.push(key);
                proof {
                    let n = old(self).arch@.len() as int;
                    assert(self.arch@[n] == fresh);
                    assert(self.keys@[n]@ == key_of(metas@));
                    assert forall|i: int, j: int|
                        0 <= i < j < self.arch@.len() implies (#[trigger] self.keys@[i])@ != (
                    #[trigger] self.keys@[j])@ by {
                        if j == n {
                            assert(self.keys@[i] == old(self).keys@[i]);
                        } else {
                            assert(self.keys@[i] == old(self).keys@[i]);
                            assert(self.keys@[j] == old(self).keys@[j]);
                        }
                    }
                    assert forall|i: int, j: int, i2: int, j2: int|
                        0 <= i < self.arch@.len() && 0 <= j < self.arch@[i].meta.types@.len() && 0
                            <= i2 < self.arch@.len() && 0 <= j2
                            < self.arch@[i2].meta.types@.len() && (
                        #[trigger] self.arch@[i].meta.types@[j]).id.0 == (
                        #[trigger] self.arch@[i2].meta.types@[j2]).id.0 implies self.arch@[i].meta.types@[j]
                        == self.arch@[i2].meta.types@[j2] by {
                        if i < n {
                            assert(self.arch@[i] == old(self).arch@[i]);
                        }
                        if i2 < n {
                            assert(self.arch@[i2] == old(self).arch@[i2]);
                        }
                        if i == n && i2 == n {
                            assert(metas@[j].id.0 == metas@[j2].id.0);
                            if j != j2 {
                                assert(false);
                            }
                        }
                    }
                }
                id
            },
        }
    }
}

impl Default for ArchetypeMap {
    /// an empty registry
    fn default() -> (r: ArchetypeMap)
        ensures
            r.wf(),
            r.arch@.len() == 0,
    {
        ArchetypeMap::new()
    }
}

/// Are two id vectors element-for-element equal?
#[verifier::loop_isolation(false)]
fn ids_eq(a: &Vec<u64>, b: &Vec<u64>) -> (r: bool)
    ensures
        r == (a@ == b@),
{
    if a.len() != b.len() {
        return false;
    }
    let mut i: usize = 0;
    while i < a.len()
        invariant
            0 <= i <= a@.len(),
            forall|k: int| 0 <= k < i ==> a@[k] == b@[k],
        decreases a@.len() - i,
    {
        if a[i] != b[i] {
            return false;
        }
        i = i + 1;
    }
    proof {
        assert(a@ =~= b@);
    }
    true
}

/// Copy the sorted ids out of a descriptor vector.
fn key_vec(metas: &Vec<CmpMeta>) -> (r: Vec<u64>)
    ensures
        r@ == key_of(metas@),
{
    let mut r: Vec<u64> = Vec::new();
    let mut i: usize = 0;
    while i < metas.len()
        invariant
            0 <= i <= metas@.len(),
            r@.len() == i,
            forall|k: int| 0 <= k < i ==> r@[k] == key_of(metas@)[k],
        decreases metas@.len() - i,
    {
        r.push(metas[i].id.0);
        i = i + 1;
    }
    proof {
        assert(r@ =~= key_of(metas@));
    }
    r
}




/// Two component combinations map to the same archetype exactly when
/// their sorted type-id sequences are equal: the registry key
/// determines the archetype, and each archetype has one key.
pub proof fn lemma_same_archetype_iff_same_key(m: &ArchetypeMap, ty1: Seq<u64>, ty2: Seq<u64>)
    requires
        m.wf(),
        key_found(m.keys@, ty1),
        key_found(m.keys@, ty2),
    ensures
        key_index(m.keys@, ty1) == key_index(m.keys@, ty2) <==> ty1 == ty2,
{
    let i1 = key_index(m.keys@, ty1);
    let i2 = key_index(m.keys@, ty2);
    assert(0 <= i1 < m.keys@.len() && m.keys@[i1]@ == ty1);
    assert(0 <= i2 < m.keys@.len() && m.keys@[i2]@ == ty2);
}

/// With pairwise distinct keys, any slot holding a key is the chosen
/// one.
proof fn lemma_key_index_unique(keys: Seq<Vec<u64>>, key: Seq<u64>, i: int)
    requires
        forall|a: int, b: int|
            0 <= a < b < keys.len() ==> (#[trigger] keys[a])@ != (#[trigger] keys[b])@,
        0 <= i < keys.len(),
        keys[i]@ == key,
    ensures
        key_index(keys, key) == i,
{
    let j = key_index(keys, key);
    assert(key_found(keys, key));
    assert(0 <= j < keys.len() && keys[j]@ == key);
    if i < j {
        assert(keys[i]@ != keys[j]@);
    } else if j < i {
        assert(keys[j]@ != keys[i]@);
    }
}

} // verus!
