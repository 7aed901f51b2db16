use vstd::prelude::*;

verus! {

use crate::archetype::Archetype;
use crate::chunk::slot_bytes;
use crate::cmp::{
    copy_bytes,
    has_dup_id,
    has_empty_cmp,
    metas_of,
    set_has_id,
    set_idx_of,
    spec_entry_size,
    CmpData,
    CmpId,
    CmpMeta,
    ComponentSet,
};
use crate::entity::{null_loc, Entity, EntityLocation, EntityMap};
use crate::meta::{spec_added_size, type_has, type_idx};
use crate::registry::{consistent_with_registry, ArchetypeMap};

/// A container for entities and their components.
///
/// Responsible for (de)spawning and querying entities. Entity ids are
/// drawn from the scene's own monotonic counter and never recycled.
#[derive(Debug)]
pub struct Scene {
    /// maps each live entity id to its storage location
    pub entities: EntityMap,
    /// all archetypes, keyed by their sorted component-id sequence
    pub archetypes: ArchetypeMap,
    /// the next entity id to hand out
    pub next_id: u64,
}

impl Scene {
    /// Is this entity alive in the scene?
    pub open spec fn live_spec(&self, e: u64) -> bool {
        self.entities.spec_get(e) != null_loc()
    }

    /// The bytes of component `t` on entity `e`, if `e` is alive and
    /// its archetype stores `t`.
    pub open spec fn get_spec(&self, e: u64, t: u64) -> Option<Seq<u8>> {
        if !self.live_spec(e) {
            None
        } else {
            let loc = self.entities.spec_get(e);
            let arch = self.archetypes.arch@[loc.archetype as int];
            if type_has(arch.meta.types@, t) {
                Some(
                    slot_bytes(
                        arch.meta,
                        arch.chunks@[loc.chunk as int].data@,
                        type_idx(arch.meta.types@, t),
                        loc.index as int,
                    ),
                )
            } else {
                None
            }
        }
    }

    /// The scene invariant: the directory and the archetypes describe
    /// each other exactly.
    ///
    /// For every live entity the directory points at an occupied slot
    /// whose id column holds that entity; conversely every occupied
    /// slot of every chunk has exactly that directory entry. Together
    /// with each chunk's own occupancy bound this is the
    /// directory-archetype bijection and the packedness of chunks.
    pub open spec fn wf(&self) -> bool {
        &&& self.entities.wf()
        &&& self.archetypes.wf()
        &&& forall|e: u64| #[trigger]
            self.entities.spec_get(e) != null_loc() ==> {
                let loc = self.entities.spec_get(e);
                &&& loc.archetype < self.archetypes.arch@.len()
                &&& loc.chunk < self.archetypes.arch@[loc.archetype as int].chunks@.len()
                &&& loc.index
                    < self.archetypes.arch@[loc.archetype as int].chunks@[loc.chunk as int].ids@.len()
                &&& self.archetypes.arch@[loc.archetype as int].chunks@[loc.chunk as int].ids@[loc.index as int]
                    == e
                &&& e < self.next_id
            }
        &&& forall|a: int, c: int, s: int|
            0 <= a < self.archetypes.arch@.len() && 0 <= c
                < self.archetypes.arch@[a].chunks@.len() && 0 <= s
                < self.archetypes.arch@[a].chunks@[c].ids@.len()
                ==> self.entities.spec_get(
                #[trigger] self.archetypes.arch@[a].chunks@[c].ids@[s],
            ) == (EntityLocation { archetype: a as usize, chunk: c as usize, index: s as usize })
    }

    /// The descriptors of the archetype a live entity currently sits in.
    pub open spec fn types_of(&self, e: u64) -> Seq<CmpMeta> {
        self.archetypes.arch@[self.entities.spec_get(e).archetype as int].meta.types@
    }

    /// The chunk byte budget still accommodates this entity's current
    /// components together with the genuinely new ones of `cmp`.
    pub open spec fn add_fits(&self, e: u64, cmp: &ComponentSet) -> bool {
        self.live_spec(e) ==> spec_entry_size(self.types_of(e)) + spec_added_size(
            self.types_of(e),
            cmp.items@,
        ) <= 16_000
    }

    /// The host's component-id contract, phrased against this scene:
    /// the descriptors of `cmp` agree with every descriptor already
    /// registered under the same id.
    pub open spec fn admits(&self, cmp: &ComponentSet) -> bool {
        consistent_with_registry(self.archetypes.arch@, metas_of(cmp.items@))
    }

    /// A scene with no entities and no archetypes.
    pub fn new() -> (r: Scene)
        ensures
            r.wf(),
            r.next_id == 0,
            forall|e: u64| !(#[trigger] r.live_spec(e)),
            r.archetypes.arch@.len() == 0,
    {
        let r = Scene { entities: EntityMap::new(), archetypes: ArchetypeMap::new(), next_id: 0 };
        proof {
            assert(forall|e: u64| #[trigger] r.entities.spec_get(e) == null_loc());
        }
        r
    }

    /// is the entity alive and in this `Scene`?
    pub fn contains(&self, ent: Entity) -> (r: bool)
        requires
            self.wf(),
        ensures
            r == self.live_spec(ent.id),
    {
        self.entities.contains(ent)
    }

    /// get the component data of type `t` for the given entity, if the
    /// entity is alive and carries it
    pub fn get(&self, ent: Entity, t: CmpId) -> (r: Option<Vec<u8>>)
        requires
            self.wf(),
        ensures
            (r is Some) <==> (self.get_spec(ent.id, t.0) is Some),
            r is Some ==> r.unwrap()@ == self.get_spec(ent.id, t.0).unwrap(),
    {
        let loc = self.entities.get(ent);
        if loc.is_null() {
            None
        } else {
            self.archetypes.inner()[loc.archetype()].get_dyn(loc, t)
        }
    }

    /// does this entity have a component of type `t`?
    pub fn has(&self, ent: Entity, t: CmpId) -> (r: bool)
        requires
            self.wf(),
        ensures
            r == (self.get_spec(ent.id, t.0) is Some),
    {
        self.get(ent, t).is_some()
    }

    /// get the archetype registered for this sorted component-id key,
    /// if any entity with exactly that component set was ever spawned
    pub fn archetype(&self, ty: &Vec<u64>) -> (r: Option<&Archetype>)
        requires
            self.wf(),
        ensures
            match r {
                Some(a) => crate::registry::key_found(self.archetypes.keys@, ty@) && a
                    == &self.archetypes.arch@[crate::registry::key_index(
                    self.archetypes.keys@,
                    ty@,
                )],
                None => !crate::registry::key_found(self.archetypes.keys@, ty@),
            },
    {
        self.archetypes.get(ty)
    }

    /// spawn a single entity into this scene with the given components
    ///
    /// The new entity gets the next fresh id; every other entity keeps
    /// its location and all its component data.
    pub fn spawn(&mut self, cmp: ComponentSet) -> (ent: Entity)
        requires
            old(self).wf(),
            cmp.wf(),
            old(self).admits(&cmp),
            old(self).next_id < u64::MAX,
        ensures
            final(self).wf(),
            ent.id == old(self).next_id,
            final(self).next_id == old(self).next_id + 1,
            !old(self).live_spec(ent.id),
            final(self).live_spec(ent.id),
            // every other entity keeps its directory entry ...
            forall|e2: u64| #[trigger]
                final(self).entities.spec_get(e2) == if e2 == ent.id {
                    final(self).entities.spec_get(ent.id)
                } else {
                    old(self).entities.spec_get(e2)
                },
            // ... and all its component data
            forall|e2: u64, t: u64|
                e2 != ent.id ==> #[trigger] final(self).get_spec(e2, t) == old(self).get_spec(
                    e2,
                    t,
                ),
            // the new entity carries exactly the components of `cmp`
            forall|t: u64| #[trigger]
                final(self).get_spec(ent.id, t) == if set_has_id(cmp.items@, t) {
                    Some(cmp.items@[set_idx_of(cmp.items@, t)].bytes@)
                } else {
                    None::<Seq<u8>>
                },
    {
        // allocate a fresh entity id
        let ent = Entity::from_id(self.next_id);
        self.next_id = self.next_id + 1;
        proof {
            assert(!self.live_spec(ent.id)) by {
                if self.entities.spec_get(ent.id) != null_loc() {
                    assert(ent.id < old(self).next_id);
                }
            }
            assert(self.wf());
        }
        self.spawn_id(ent.id, cmp);
        ent
    }

    /// Place an entity with a known fresh id into the archetype of the
    /// given component set and write its components.
    fn spawn_id(&mut self, e: u64, cmp: ComponentSet)
        requires
            old(self).wf(),
            cmp.wf(),
            old(self).admits(&cmp),
            !old(self).live_spec(e),
            e < old(self).next_id,
        ensures
            final(self).wf(),
            final(self).next_id == old(self).next_id,
            final(self).live_spec(e),
            forall|e2: u64| #[trigger]
                final(self).entities.spec_get(e2) == if e2 == e {
                    final(self).entities.spec_get(e)
                } else {
                    old(self).entities.spec_get(e2)
                },
            forall|e2: u64, t: u64|
                e2 != e ==> #[trigger] final(self).get_spec(e2, t) == old(self).get_spec(e2, t),
            forall|t: u64| #[trigger]
                final(self).get_spec(e, t) == if set_has_id(cmp.items@, t) {
                    Some(cmp.items@[set_idx_of(cmp.items@, t)].bytes@)
                } else {
                    None::<Seq<u8>>
                },
            // where the entity landed: an archetype with exactly the
            // set's descriptors
            ({
                let l = final(self).entities.spec_get(e);
                final(self).archetypes.arch@[l.archetype as int].meta.types@ == metas_of(
                    cmp.items@,
                )
            }),
            // already-registered archetypes keep their descriptors
            old(self).archetypes.arch@.len() <= final(self).archetypes.arch@.len(),
            forall|a: int|
                0 <= a < old(self).archetypes.arch@.len()
                    ==> #[trigger] final(self).archetypes.arch@[a].meta == old(
                    self,
                ).archetypes.arch@[a].meta,
    {
        let ghost s0 = *self;
        let ent = Entity::from_id(e);

        // get or create the archetype for this component combination
        let ai = self.archetypes.get_or_insert(&cmp);
        let ghost s2 = *self;

        // insert the entity into the archetype
        let loc: EntityLocation;
        {
            let am = &mut self.archetypes.arch[ai];
            loc = am.insert(ent.id);
        }
        proof {
            assert(self.archetypes.arch@ == s2.archetypes.arch@.update(
                ai as int,
                self.archetypes.arch@[ai as int],
            ));
        }
        let ghost s3 = *self;

        // move each component of the tuple into its column at the new
        // slot
        let mut k: usize = 0;
        let n = cmp.items.len();
        while k < n
            invariant
                n == cmp.items@.len(),
                0 <= k <= n,
                cmp.wf(),
                ai < self.archetypes.arch@.len(),
                self.archetypes.arch@.len() == s3.archetypes.arch@.len(),
                self.entities == s3.entities,
                self.next_id == s3.next_id,
                self.archetypes.keys@ == s3.archetypes.keys@,
                self.archetypes.arch@[ai as int].wf(),
                self.archetypes.arch@[ai as int].meta == s3.archetypes.arch@[ai as int].meta,
                self.archetypes.arch@[ai as int].meta.types@ == metas_of(cmp.items@),
                self.archetypes.arch@[ai as int].meta.id == ai,
                self.archetypes.arch@[ai as int].free@ == s3.archetypes.arch@[ai as int].free@,
                forall|x: int|
                    0 <= x < self.archetypes.arch@.len() && x != ai ==> #[trigger] self.archetypes.arch@[x]
                        == s3.archetypes.arch@[x],
                loc.archetype == ai,
                loc.chunk < self.archetypes.arch@[ai as int].chunks@.len(),
                self.archetypes.arch@[ai as int].chunks@.len() == s3.archetypes.arch@[ai as int].chunks@.len(),
                forall|c: int|
                    0 <= c < self.archetypes.arch@[ai as int].chunks@.len() && c != loc.chunk
                        ==> #[trigger] self.archetypes.arch@[ai as int].chunks@[c]
                        == s3.archetypes.arch@[ai as int].chunks@[c],
                self.archetypes.arch@[ai as int].chunks@[loc.chunk as int].ids@
                    == s3.archetypes.arch@[ai as int].chunks@[loc.chunk as int].ids@,
                loc.index < self.archetypes.arch@[ai as int].chunks@[loc.chunk as int].ids@.len(),
                forall|j: int|
                    0 <= j < k ==> slot_bytes(
                        self.archetypes.arch@[ai as int].meta,
                        self.archetypes.arch@[ai as int].chunks@[loc.chunk as int].data@,
                        j,
                        loc.index as int,
                    ) == #[trigger] cmp.items@[j].bytes@,
                forall|tj: int, sj: int|
                    0 <= tj < metas_of(cmp.items@).len() && 0 <= sj
                        < self.archetypes.arch@[ai as int].meta.max && sj != loc.index
                        ==> slot_bytes(
                        self.archetypes.arch@[ai as int].meta,
                        self.archetypes.arch@[ai as int].chunks@[loc.chunk as int].data@,
                        tj,
                        sj,
                    ) == slot_bytes(
                        s3.archetypes.arch@[ai as int].meta,
                        s3.archetypes.arch@[ai as int].chunks@[loc.chunk as int].data@,
                        tj,
                        sj,
                    ),
            decreases n - k,
        {
            proof {
                assert(metas_of(cmp.items@)[k as int] == cmp.items@[k as int].meta);
                assert(type_has(metas_of(cmp.items@), cmp.items@[k as int].meta.id.0));
                crate::meta::lemma_type_idx_unique(
                    metas_of(cmp.items@),
                    cmp.items@[k as int].meta.id.0,
                );
                assert(type_idx(metas_of(cmp.items@), cmp.items@[k as int].meta.id.0) == k);
            }
            {
                let am = &mut self.archetypes.arch[ai];
                am.set(loc, &cmp.items[k]);
            }
            proof {
                assert(self.archetypes.arch@ == s3.archetypes.arch@.update(
                    ai as int,
                    self.archetypes.arch@[ai as int],
                ));
            }
            k = k + 1;
        }

        let ghost s4 = *self;
        proof {
            lemma_vec_len_bound(&self.archetypes.arch);
            assert(loc.archetype < self.archetypes.arch@.len());
            assert(loc != crate::entity::null_loc());
        }
        // record the entity's location in the directory
        self.entities.insert(ent, loc);

        proof {
            lemma_vec_len_bound(&self.archetypes.arch);
            let types = metas_of(cmp.items@);
            let aii = ai as int;
            let ci = loc.chunk as int;
            let si = loc.index as int;
            let arch_new = !crate::registry::key_found(s0.archetypes.keys@, crate::cmp::key_of(types));
            // the new slot holds the new entity's id
            assert(s0.entities == s4.entities);
            assert(self.archetypes == s4.archetypes);
            assert(!s0.live_spec(ent.id));
            if arch_new {
                assert(aii == s0.archetypes.arch@.len());
                assert(s2.archetypes.arch@[aii].chunks@.len() == 0);
                assert(loc.chunk == 0 && loc.index == 0);
                assert(s3.archetypes.arch@[aii].chunks@[ci].ids@ =~= seq![ent.id]);
            } else {
                assert(s2.archetypes == s0.archetypes);
            }
            assert(self.archetypes.arch@[aii].chunks@[ci].ids@[si] == ent.id);
            // the archetypes other than `ai` are exactly as they were
            assert forall|x: int|
                0 <= x < s0.archetypes.arch@.len() && x != aii implies #[trigger] self.archetypes.arch@[x]
                == s0.archetypes.arch@[x] by {
                assert(s2.archetypes.arch@[x] == s0.archetypes.arch@[x]);
                assert(s3.archetypes.arch@[x] == s2.archetypes.arch@[x]);
            }
            // within archetype `ai`, chunks other than the target kept
            // their contents, and the target chunk kept its old prefix
            assert forall|c: int|
                !arch_new && 0 <= c < s0.archetypes.arch@[aii].chunks@.len() && c
                    != ci implies #[trigger] self.archetypes.arch@[aii].chunks@[c]
                == s0.archetypes.arch@[aii].chunks@[c] by {
                assert(s3.archetypes.arch@[aii].chunks@[c] == s2.archetypes.arch@[aii].chunks@[c]);
            }
            // the registry invariant survives
            assert(self.archetypes.wf()) by {
                assert forall|i: int| 0 <= i < self.archetypes.arch@.len() implies (
                #[trigger] self.archetypes.arch@[i]).wf() by {
                    if i != aii {
                        assert(self.archetypes.arch@[i] == s2.archetypes.arch@[i]);
                    }
                }
                assert forall|i: int| 0 <= i < self.archetypes.arch@.len() implies (
                #[trigger] self.archetypes.arch@[i]).meta.id == i by {
                    if i != aii {
                        assert(self.archetypes.arch@[i] == s2.archetypes.arch@[i]);
                    } else {
                        assert(self.archetypes.arch@[aii].meta == s2.archetypes.arch@[aii].meta);
                    }
                }
                assert forall|i: int| 0 <= i < self.archetypes.arch@.len() implies (
                #[trigger] self.archetypes.keys@[i])@ == crate::cmp::key_of(
                    self.archetypes.arch@[i].meta.types@,
                ) by {
                    if i != aii {
                        assert(self.archetypes.arch@[i] == s2.archetypes.arch@[i]);
                    } else {
                        assert(self.archetypes.arch@[aii].meta == s2.archetypes.arch@[aii].meta);
                    }
                }
            }
            // the directory-archetype bijection survives
            assert forall|e2: u64| #[trigger]
                self.entities.spec_get(e2) != null_loc() implies {
                let l2 = self.entities.spec_get(e2);
                &&& l2.archetype < self.archetypes.arch@.len()
                &&& l2.chunk < self.archetypes.arch@[l2.archetype as int].chunks@.len()
                &&& l2.index
                    < self.archetypes.arch@[l2.archetype as int].chunks@[l2.chunk as int].ids@.len()
                &&& self.archetypes.arch@[l2.archetype as int].chunks@[l2.chunk as int].ids@[l2.index as int]
                    == e2
                &&& e2 < self.next_id
            } by {
                if e2 == ent.id {
                    assert(self.entities.spec_get(e2) == loc);
                } else {
                    assert(self.entities.spec_get(e2) == s0.entities.spec_get(e2));
                    let l2 = s0.entities.spec_get(e2);
                    assert(l2.archetype < s0.archetypes.arch@.len());
                    if l2.archetype as int == aii {
                        assert(!arch_new);
                        if l2.chunk as int == ci {
                            assert(s3.archetypes.arch@[aii].chunks@[ci].ids@
                                == s0.archetypes.arch@[aii].chunks@[ci].ids@.push(ent.id));
                        }
                    }
                }
            }
            assert forall|a: int, c: int, s: int|
                0 <= a < self.archetypes.arch@.len() && 0 <= c
                    < self.archetypes.arch@[a].chunks@.len() && 0 <= s
                    < self.archetypes.arch@[a].chunks@[c].ids@.len() implies self.entities.spec_get(
                #[trigger] self.archetypes.arch@[a].chunks@[c].ids@[s],
            ) == (EntityLocation {
                archetype: a as usize,
                chunk: c as usize,
                index: s as usize,
            }) by {
                let id2 = self.archetypes.arch@[a].chunks@[c].ids@[s];
                if a == aii && c == ci && s == si {
                    assert(id2 == ent.id);
                    assert(self.entities.spec_get(ent.id) == loc);
                } else if a == aii && c == ci {
                    assert(s < si);
                    assert(!arch_new);
                    assert(s3.archetypes.arch@[aii].chunks@[ci].ids@
                        == s0.archetypes.arch@[aii].chunks@[ci].ids@.push(ent.id));
                    assert(id2 == s0.archetypes.arch@[a].chunks@[c].ids@[s]);
                    assert(s0.entities.spec_get(id2) == (EntityLocation {
                        archetype: a as usize,
                        chunk: c as usize,
                        index: s as usize,
                    }));
                    assert(id2 != ent.id);
                } else {
                    if a == aii {
                        assert(!arch_new || self.archetypes.arch@[aii].chunks@.len() == 1);
                        assert(!arch_new);
                        assert(self.archetypes.arch@[a].chunks@[c]
                            == s0.archetypes.arch@[a].chunks@[c]);
                    } else {
                        assert(self.archetypes.arch@[a] == s0.archetypes.arch@[a]);
                    }
                    assert(id2 == s0.archetypes.arch@[a].chunks@[c].ids@[s]);
                    assert(s0.entities.spec_get(id2) == (EntityLocation {
                        archetype: a as usize,
                        chunk: c as usize,
                        index: s as usize,
                    }));
                    assert(id2 != ent.id);
                }
            }
            // the new entity carries exactly the set's components
            assert forall|t: u64| #[trigger]
                self.get_spec(ent.id, t) == (if set_has_id(cmp.items@, t) {
                    Some(cmp.items@[set_idx_of(cmp.items@, t)].bytes@)
                } else {
                    None::<Seq<u8>>
                }) by {
                crate::meta::lemma_set_type_lookup(cmp.items@, t);
                if set_has_id(cmp.items@, t) {
                    let j = set_idx_of(cmp.items@, t);
                    assert(slot_bytes(
                        self.archetypes.arch@[aii].meta,
                        self.archetypes.arch@[aii].chunks@[ci].data@,
                        j,
                        si,
                    ) == cmp.items@[j].bytes@);
                }
            }
            // every other entity's components read back unchanged
            assert forall|e2: u64, t: u64| e2 != ent.id implies #[trigger] self.get_spec(e2, t)
                == s0.get_spec(e2, t) by {
                if s0.entities.spec_get(e2) != null_loc() {
                    let l2 = s0.entities.spec_get(e2);
                    let a2 = l2.archetype as int;
                    if a2 == aii {
                        assert(!arch_new);
                        assert(self.archetypes.arch@[a2].meta == s0.archetypes.arch@[a2].meta);
                        if type_has(types, t) {
                            let tix = type_idx(types, t);
                            if l2.chunk as int == ci {
                                assert(l2.index != loc.index);
                                assert(0 <= tix < types.len());
                                assert(l2.index < self.archetypes.arch@[aii].meta.max);
                                assert(slot_bytes(
                                    self.archetypes.arch@[aii].meta,
                                    self.archetypes.arch@[aii].chunks@[ci].data@,
                                    tix,
                                    l2.index as int,
                                ) == slot_bytes(
                                    s3.archetypes.arch@[aii].meta,
                                    s3.archetypes.arch@[aii].chunks@[ci].data@,
                                    tix,
                                    l2.index as int,
                                ));
                                assert(s3.archetypes.arch@[aii].chunks@[ci].data@
                                    == s0.archetypes.arch@[aii].chunks@[ci].data@);
                            } else {
                                assert(self.archetypes.arch@[aii].chunks@[l2.chunk as int]
                                    == s0.archetypes.arch@[aii].chunks@[l2.chunk as int]);
                            }
                        }
                    } else {
                        assert(self.archetypes.arch@[a2] == s0.archetypes.arch@[a2]);
                    }
                }
            }
            assert(self.entities.spec_get(ent.id) == loc);
            assert(self.archetypes.arch@[loc.archetype as int].meta.types@ == types);
            assert forall|a: int|
                0 <= a < s0.archetypes.arch@.len() implies #[trigger] self.archetypes.arch@[a].meta
                == s0.archetypes.arch@[a].meta by {
                if a != ai as int {
                    assert(self.archetypes.arch@[a] == s0.archetypes.arch@[a]);
                } else {
                    assert(self.archetypes.arch@[a].meta == s2.archetypes.arch@[a].meta);
                }
            }
        }
    }

    /// overwrite one component of a live entity in place; returns
    /// whether anything was written
    ///
    /// The write succeeds exactly when the entity is alive, its
    /// archetype stores a component of `cmp`'s type, and the payload
    /// has that type's size. Nothing else in the scene changes.
    pub fn set(&mut self, ent: Entity, cmp: &CmpData) -> (r: bool)
        requires
            old(self).wf(),
        ensures
            final(self).wf(),
            r == (old(self).get_spec(ent.id, cmp.meta.id.0) matches Some(b) && b.len()
                == cmp.bytes@.len()),
            !r ==> *final(self) == *old(self),
            final(self).next_id == old(self).next_id,
            final(self).entities == old(self).entities,
            r ==> final(self).get_spec(ent.id, cmp.meta.id.0) == Some(cmp.bytes@),
            // every other component of every entity reads back unchanged
            forall|e2: u64, t: u64|
                e2 != ent.id || t != cmp.meta.id.0 ==> #[trigger] final(self).get_spec(e2, t)
                    == old(self).get_spec(e2, t),
            // no archetype appears, disappears or changes its layout
            final(self).archetypes.arch@.len() == old(self).archetypes.arch@.len(),
            forall|a: int|
                0 <= a < old(self).archetypes.arch@.len()
                    ==> #[trigger] final(self).archetypes.arch@[a].meta == old(
                    self,
                ).archetypes.arch@[a].meta,
    {
        let loc = self.entities.get(ent);
        if loc.is_null() {
            return false;
        }
        let ghost s0 = *self;
        let a0 = loc.archetype();
        proof {
            lemma_vec_len_bound(&self.archetypes.arch);
            assert(s0.entities.spec_get(ent.id) == loc);
        }
        let present = self.archetypes.inner()[a0].meta().try_get_dyn(cmp.meta.id);
        let sz_ok: bool = match present {
            Some(p) => p.0.size as usize == cmp.bytes.len(),
            None => false,
        };
        if !sz_ok {
            proof {
                let meta = s0.archetypes.arch@[a0 as int].meta;
                if type_has(meta.types@, cmp.meta.id.0) {
                    crate::meta::lemma_type_idx_unique(meta.types@, cmp.meta.id.0);
                    let tix = type_idx(meta.types@, cmp.meta.id.0);
                    crate::chunk::lemma_slot_in_alloc(meta, tix, loc.index as int);
                    assert(s0.get_spec(ent.id, cmp.meta.id.0).unwrap().len()
                        == meta.types@[tix].size);
                }
            }
            return false;
        }
        proof {
            let meta = s0.archetypes.arch@[a0 as int].meta;
            crate::meta::lemma_type_idx_unique(meta.types@, cmp.meta.id.0);
            let tix = type_idx(meta.types@, cmp.meta.id.0);
            crate::chunk::lemma_slot_in_alloc(meta, tix, loc.index as int);
            assert(s0.get_spec(ent.id, cmp.meta.id.0).unwrap().len() == meta.types@[tix].size);
        }
        {
            let am = &mut self.archetypes.arch[a0];
            am.set_dyn(loc, cmp.meta.id, &cmp.bytes);
        }
        proof {
            let aii = a0 as int;
            let ci = loc.chunk as int;
            let si = loc.index as int;
            assert(self.archetypes.arch@ == s0.archetypes.arch@.update(
                aii,
                self.archetypes.arch@[aii],
            ));
            let meta = s0.archetypes.arch@[aii].meta;
            let tix = type_idx(meta.types@, cmp.meta.id.0);
            // the registry invariant survives
            assert(self.archetypes.wf()) by {
                assert forall|i: int| 0 <= i < self.archetypes.arch@.len() implies (
                #[trigger] self.archetypes.arch@[i]).wf() by {
                    if i != aii {
                        assert(self.archetypes.arch@[i] == s0.archetypes.arch@[i]);
                    }
                }
                assert forall|i: int| 0 <= i < self.archetypes.arch@.len() implies (
                #[trigger] self.archetypes.arch@[i]).meta.id == i by {
                    if i != aii {
                        assert(self.archetypes.arch@[i] == s0.archetypes.arch@[i]);
                    } else {
                        assert(self.archetypes.arch@[aii].meta == s0.archetypes.arch@[aii].meta);
                    }
                }
                assert forall|i: int| 0 <= i < self.archetypes.arch@.len() implies (
                #[trigger] self.archetypes.keys@[i])@ == crate::cmp::key_of(
                    self.archetypes.arch@[i].meta.types@,
                ) by {
                    if i != aii {
                        assert(self.archetypes.arch@[i] == s0.archetypes.arch@[i]);
                    } else {
                        assert(self.archetypes.arch@[aii].meta == s0.archetypes.arch@[aii].meta);
                    }
                }
            }
            // ids are untouched everywhere, so the bijection survives
            assert forall|e2: u64| #[trigger]
                self.entities.spec_get(e2) != null_loc() implies {
                let l2 = self.entities.spec_get(e2);
                &&& l2.archetype < self.archetypes.arch@.len()
                &&& l2.chunk < self.archetypes.arch@[l2.archetype as int].chunks@.len()
                &&& l2.index
                    < self.archetypes.arch@[l2.archetype as int].chunks@[l2.chunk as int].ids@.len()
                &&& self.archetypes.arch@[l2.archetype as int].chunks@[l2.chunk as int].ids@[l2.index as int]
                    == e2
                &&& e2 < self.next_id
            } by {
                let l2 = s0.entities.spec_get(e2);
                if l2.archetype as int == aii {
                    if l2.chunk as int == ci {
                        assert(self.archetypes.arch@[aii].chunks@[ci].ids@
                            == s0.archetypes.arch@[aii].chunks@[ci].ids@);
                    } else {
                        assert(self.archetypes.arch@[aii].chunks@[l2.chunk as int]
                            == s0.archetypes.arch@[aii].chunks@[l2.chunk as int]);
                    }
                } else {
                    assert(self.archetypes.arch@[l2.archetype as int]
                        == s0.archetypes.arch@[l2.archetype as int]);
                }
            }
            assert forall|a: int, c: int, s: int|
                0 <= a < self.archetypes.arch@.len() && 0 <= c
                    < self.archetypes.arch@[a].chunks@.len() && 0 <= s
                    < self.archetypes.arch@[a].chunks@[c].ids@.len() implies self.entities.spec_get(
                #[trigger] self.archetypes.arch@[a].chunks@[c].ids@[s],
            ) == (EntityLocation {
                archetype: a as usize,
                chunk: c as usize,
                index: s as usize,
            }) by {
                if a == aii && c == ci {
                    assert(self.archetypes.arch@[a].chunks@[c].ids@
                        == s0.archetypes.arch@[a].chunks@[c].ids@);
                } else if a == aii {
                    assert(self.archetypes.arch@[a].chunks@[c] == s0.archetypes.arch@[a].chunks@[c]);
                } else {
                    assert(self.archetypes.arch@[a] == s0.archetypes.arch@[a]);
                }
                assert(self.archetypes.arch@[a].chunks@[c].ids@[s]
                    == s0.archetypes.arch@[a].chunks@[c].ids@[s]);
            }
            // the written component reads back; everything else is as it was
            assert(self.get_spec(ent.id, cmp.meta.id.0) == Some(cmp.bytes@));
            assert forall|e2: u64, t: u64|
                e2 != ent.id || t != cmp.meta.id.0 implies #[trigger] self.get_spec(e2, t)
                    == s0.get_spec(e2, t) by {
                if s0.entities.spec_get(e2) != null_loc() {
                    let l2 = s0.entities.spec_get(e2);
                    let a2 = l2.archetype as int;
                    if a2 == aii {
                        assert(self.archetypes.arch@[aii].meta == meta);
                        if type_has(meta.types@, t) {
                            let tjx = type_idx(meta.types@, t);
                            crate::meta::lemma_type_idx_unique(meta.types@, t);
                            if l2.chunk as int == ci {
                                assert(e2 != ent.id ==> l2.index != loc.index);
                                assert(t != cmp.meta.id.0 ==> tjx != tix);
                                assert(slot_bytes(
                                    meta,
                                    self.archetypes.arch@[aii].chunks@[ci].data@,
                                    tjx,
                                    l2.index as int,
                                ) == slot_bytes(
                                    meta,
                                    s0.archetypes.arch@[aii].chunks@[ci].data@,
                                    tjx,
                                    l2.index as int,
                                ));
                            } else {
                                assert(self.archetypes.arch@[aii].chunks@[l2.chunk as int]
                                    == s0.archetypes.arch@[aii].chunks@[l2.chunk as int]);
                            }
                        }
                    } else {
                        assert(self.archetypes.arch@[a2] == s0.archetypes.arch@[a2]);
                    }
                }
            }
        }
        true
    }

    /// despawns a single entity if it's alive and in this scene.
    /// returns whether the operation was successful
    ///
    /// The vacated slot is filled by the chunk's last entity, whose
    /// directory entry is updated; every other entity keeps its
    /// location, and every surviving entity keeps all its component
    /// data. Archetypes and chunks are never removed.
    pub fn despawn(&mut self, ent: Entity) -> (r: bool)
        requires
            old(self).wf(),
        ensures
            final(self).wf(),
            r == old(self).live_spec(ent.id),
            !r ==> *final(self) == *old(self),
            !final(self).live_spec(ent.id),
            final(self).next_id == old(self).next_id,
            // liveness of every other entity is preserved
            forall|e2: u64|
                e2 != ent.id ==> #[trigger] final(self).live_spec(e2) == old(self).live_spec(e2),
            // and so is every surviving entity's component data
            forall|e2: u64, t: u64|
                e2 != ent.id ==> #[trigger] final(self).get_spec(e2, t) == old(self).get_spec(
                    e2,
                    t,
                ),
            // archetypes and their chunks stay where they are
            final(self).archetypes.arch@.len() == old(self).archetypes.arch@.len(),
            forall|a: int|
                0 <= a < old(self).archetypes.arch@.len()
                    ==> #[trigger] final(self).archetypes.arch@[a].chunks@.len() == old(
                    self,
                ).archetypes.arch@[a].chunks@.len() && final(self).archetypes.arch@[a].meta == old(
                    self,
                ).archetypes.arch@[a].meta,
    {
        let loc = self.entities.get(ent);
        if loc.is_null() {
            return false;
        }
        let ghost s0 = *self;
        let a0 = loc.archetype();
        proof {
            lemma_vec_len_bound(&self.archetypes.arch);
            assert(s0.entities.spec_get(ent.id) == loc);
        }
        let ghost oldids = s0.archetypes.arch@[a0 as int].chunks@[loc.chunk as int].ids@;
        let ghost m0 = oldids.last();
        let moved: Option<u64>;
        {
            let am = &mut self.archetypes.arch[a0];
            moved = am.remove(loc, true);
        }
        proof {
            assert(self.archetypes.arch@ == s0.archetypes.arch@.update(
                a0 as int,
                self.archetypes.arch@[a0 as int],
            ));
            // the chunk's old last slot belonged to the entity that
            // just moved
            assert(oldids[oldids.len() - 1] == m0);
            assert(s0.entities.spec_get(m0).archetype == a0 && s0.entities.spec_get(m0).chunk
                == loc.chunk && s0.entities.spec_get(m0).index == oldids.len() - 1);
        }
        match moved {
            Some(m) => {
                proof {
                    assert(m == m0);
                    assert(loc.index != oldids.len() - 1);
                    assert(m0 != ent.id);
                }
                // the relocated entity now lives at the vacated slot
                self.entities.insert(Entity::from_id(m), loc);
            },
            None => {},
        }
        // remove entity from scene
        self.entities.remove(ent);
        proof {
            let aii = a0 as int;
            let ci = loc.chunk as int;
            let si = loc.index as int;
            let n = oldids.len() as int;
            let was_some = moved is Some;
            assert(!was_some ==> si == n - 1);
            // how the directory reads now, pointwise
            assert forall|e2: u64| #[trigger] self.entities.spec_get(e2) == (if e2 == ent.id {
                null_loc()
            } else if was_some && e2 == m0 {
                loc
            } else {
                s0.entities.spec_get(e2)
            }) by {}
            // the registry invariant survives
            assert(self.archetypes.wf()) by {
                assert forall|i: int| 0 <= i < self.archetypes.arch@.len() implies (
                #[trigger] self.archetypes.arch@[i]).wf() by {
                    if i != aii {
                        assert(self.archetypes.arch@[i] == s0.archetypes.arch@[i]);
                    }
                }
                assert forall|i: int| 0 <= i < self.archetypes.arch@.len() implies (
                #[trigger] self.archetypes.arch@[i]).meta.id == i by {
                    if i != aii {
                        assert(self.archetypes.arch@[i] == s0.archetypes.arch@[i]);
                    } else {
                        assert(self.archetypes.arch@[aii].meta == s0.archetypes.arch@[aii].meta);
                    }
                }
                assert forall|i: int| 0 <= i < self.archetypes.arch@.len() implies (
                #[trigger] self.archetypes.keys@[i])@ == crate::cmp::key_of(
                    self.archetypes.arch@[i].meta.types@,
                ) by {
                    if i != aii {
                        assert(self.archetypes.arch@[i] == s0.archetypes.arch@[i]);
                    } else {
                        assert(self.archetypes.arch@[aii].meta == s0.archetypes.arch@[aii].meta);
                    }
                }
            }
            let newids = self.archetypes.arch@[aii].chunks@[ci].ids@;
            assert(newids == oldids.update(si, m0).drop_last());
            // the directory-archetype bijection survives
            assert forall|e2: u64| #[trigger]
                self.entities.spec_get(e2) != null_loc() implies {
                let l2 = self.entities.spec_get(e2);
                &&& l2.archetype < self.archetypes.arch@.len()
                &&& l2.chunk < self.archetypes.arch@[l2.archetype as int].chunks@.len()
                &&& l2.index
                    < self.archetypes.arch@[l2.archetype as int].chunks@[l2.chunk as int].ids@.len()
                &&& self.archetypes.arch@[l2.archetype as int].chunks@[l2.chunk as int].ids@[l2.index as int]
                    == e2
                &&& e2 < self.next_id
            } by {
                if was_some && e2 == m0 {
                    assert(self.entities.spec_get(e2) == loc);
                    assert(si < n - 1);
                    assert(newids[si] == m0);
                } else if e2 != ent.id {
                    let l2 = s0.entities.spec_get(e2);
                    assert(self.entities.spec_get(e2) == l2);
                    if l2.archetype as int == aii && l2.chunk as int == ci {
                        assert(oldids[l2.index as int] == e2);
                        assert(l2.index as int != si);
                        assert(l2.index as int != n - 1) by {
                            if l2.index as int == n - 1 {
                                assert(e2 == m0);
                                assert(s0.entities.spec_get(m0).index == n - 1);
                            }
                        }
                        assert(newids[l2.index as int] == e2);
                    } else if l2.archetype as int == aii {
                        assert(self.archetypes.arch@[aii].chunks@[l2.chunk as int]
                            == s0.archetypes.arch@[aii].chunks@[l2.chunk as int]);
                    } else {
                        assert(self.archetypes.arch@[l2.archetype as int]
                            == s0.archetypes.arch@[l2.archetype as int]);
                    }
                }
            }
            assert forall|a: int, c: int, s: int|
                0 <= a < self.archetypes.arch@.len() && 0 <= c
                    < self.archetypes.arch@[a].chunks@.len() && 0 <= s
                    < self.archetypes.arch@[a].chunks@[c].ids@.len() implies self.entities.spec_get(
                #[trigger] self.archetypes.arch@[a].chunks@[c].ids@[s],
            ) == (EntityLocation {
                archetype: a as usize,
                chunk: c as usize,
                index: s as usize,
            }) by {
                let id3 = self.archetypes.arch@[a].chunks@[c].ids@[s];
                if a == aii && c == ci {
                    assert(s < n - 1);
                    if was_some && s == si {
                        assert(id3 == m0);
                        assert(self.entities.spec_get(m0) == loc);
                    } else {
                        assert(id3 == oldids[s]);
                        assert(s0.entities.spec_get(id3).archetype == a0
                            && s0.entities.spec_get(id3).chunk == loc.chunk
                            && s0.entities.spec_get(id3).index == s);
                        assert(id3 != ent.id);
                        assert(id3 != m0) by {
                            if id3 == m0 {
                                assert(s0.entities.spec_get(m0).index == n - 1);
                            }
                        }
                        assert(self.entities.spec_get(id3) == s0.entities.spec_get(id3));
                    }
                } else {
                    lemma_vec_len_bound(&s0.archetypes.arch@[a].chunks);
                    if a == aii {
                        assert(self.archetypes.arch@[a].chunks@[c]
                            == s0.archetypes.arch@[a].chunks@[c]);
                    } else {
                        assert(self.archetypes.arch@[a] == s0.archetypes.arch@[a]);
                    }
                    assert(id3 == s0.archetypes.arch@[a].chunks@[c].ids@[s]);
                    assert(s0.entities.spec_get(id3).archetype == a && s0.entities.spec_get(
                        id3,
                    ).chunk == c && s0.entities.spec_get(id3).index == s);
                    assert(id3 != ent.id);
                    assert(id3 != m0 || !was_some) by {
                        if id3 == m0 && was_some {
                            assert(s0.entities.spec_get(m0).archetype == a0);
                            assert(s0.entities.spec_get(m0).chunk == loc.chunk);
                        }
                    }
                    assert(self.entities.spec_get(id3) == s0.entities.spec_get(id3));
                }
            }
            // every surviving entity reads its components back unchanged
            assert forall|e2: u64, t: u64| e2 != ent.id implies #[trigger] self.get_spec(e2, t)
                == s0.get_spec(e2, t) by {
                if was_some && e2 == m0 {
                    assert(self.entities.spec_get(e2) == loc);
                    let meta = s0.archetypes.arch@[aii].meta;
                    assert(self.archetypes.arch@[aii].meta == meta);
                    if type_has(meta.types@, t) {
                        let tix = type_idx(meta.types@, t);
                        crate::meta::lemma_type_idx_unique(meta.types@, t);
                        assert(si < newids.len());
                        assert(slot_bytes(
                            meta,
                            self.archetypes.arch@[aii].chunks@[ci].data@,
                            tix,
                            si,
                        ) == slot_bytes(meta, s0.archetypes.arch@[aii].chunks@[ci].data@, tix, n - 1));
                    }
                } else if s0.entities.spec_get(e2) != null_loc() {
                    let l2 = s0.entities.spec_get(e2);
                    assert(self.entities.spec_get(e2) == l2);
                    let a2 = l2.archetype as int;
                    if a2 == aii {
                        let meta = s0.archetypes.arch@[aii].meta;
                        assert(self.archetypes.arch@[aii].meta == meta);
                        if type_has(meta.types@, t) {
                            let tix = type_idx(meta.types@, t);
                            crate::meta::lemma_type_idx_unique(meta.types@, t);
                            if l2.chunk as int == ci {
                                assert(oldids[l2.index as int] == e2);
                                assert(l2.index as int != si);
                                assert(l2.index as int != n - 1) by {
                                    if l2.index as int == n - 1 {
                                        assert(e2 == m0);
                                        assert(s0.entities.spec_get(m0).index == n - 1);
                                        assert(!was_some ==> m0 == ent.id);
                                    }
                                }
                                assert(l2.index < newids.len());
                                assert(slot_bytes(
                                    meta,
                                    self.archetypes.arch@[aii].chunks@[ci].data@,
                                    tix,
                                    l2.index as int,
                                ) == slot_bytes(
                                    meta,
                                    s0.archetypes.arch@[aii].chunks@[ci].data@,
                                    tix,
                                    l2.index as int,
                                ));
                            } else {
                                assert(self.archetypes.arch@[aii].chunks@[l2.chunk as int]
                                    == s0.archetypes.arch@[aii].chunks@[l2.chunk as int]);
                            }
                        }
                    } else {
                        assert(self.archetypes.arch@[a2] == s0.archetypes.arch@[a2]);
                    }
                }
            }
        }
        true
    }

    /// add components to an entity, if it exists; returns whether the
    /// operation was successful
    ///
    /// A component the entity already carries is overwritten in place
    /// and its location does not change. When at least one component is
    /// genuinely new the entity migrates to the archetype of the union
    /// set: its remaining components keep their values, and it gets a
    /// new location in a different archetype.
    #[verifier::loop_isolation(false)]
    pub fn add(&mut self, ent: Entity, cmp: ComponentSet) -> (r: bool)
        requires
            old(self).wf(),
            cmp.wf(),
            old(self).admits(&cmp),
            old(self).add_fits(ent.id, &cmp),
        ensures
            final(self).wf(),
            r == old(self).live_spec(ent.id),
            !r ==> *final(self) == *old(self),
            final(self).next_id == old(self).next_id,
            // liveness of every entity is preserved
            forall|e2: u64| #[trigger]
                final(self).live_spec(e2) == old(self).live_spec(e2),
            // the entity now carries the added components ...
            forall|t: u64|
                r && set_has_id(cmp.items@, t) ==> #[trigger] final(self).get_spec(ent.id, t)
                    == Some(cmp.items@[set_idx_of(cmp.items@, t)].bytes@),
            // ... and keeps every other component it had
            forall|t: u64|
                !set_has_id(cmp.items@, t) ==> #[trigger] final(self).get_spec(ent.id, t) == old(
                    self,
                ).get_spec(ent.id, t),
            // every other entity keeps all its component data
            forall|e2: u64, t: u64|
                e2 != ent.id ==> #[trigger] final(self).get_spec(e2, t) == old(self).get_spec(
                    e2,
                    t,
                ),
            // adding only components already present does not move the
            // entity ...
            (r && forall|k: int|
                0 <= k < cmp.items@.len() ==> type_has(
                    old(self).types_of(ent.id),
                    (#[trigger] cmp.items@[k]).meta.id.0,
                )) ==> final(self).entities.spec_get(ent.id) == old(self).entities.spec_get(
                ent.id,
            ),
            // ... while adding a genuinely new one moves it to another
            // archetype
            (r && exists|k: int|
                0 <= k < cmp.items@.len() && !type_has(
                    old(self).types_of(ent.id),
                    (#[trigger] cmp.items@[k]).meta.id.0,
                )) ==> final(self).entities.spec_get(ent.id).archetype != old(
                self,
            ).entities.spec_get(ent.id).archetype,
    {
        let old_loc = self.entities.get(ent);
        if old_loc.is_null() {
            return false;
        }
        let ghost s0 = *self;
        let a0 = old_loc.archetype();
        proof {
            assert(s0.entities.spec_get(ent.id) == old_loc);
        }
        let ghost oldtypes = s0.types_of(ent.id);
        let ghost cmpg = cmp.items@;
        let n = cmp.items.len();

        // does the tuple bring any component the entity lacks?
        let mut any_fresh = false;
        let mut k: usize = 0;
        while k < n
            invariant
                0 <= k <= n,
                any_fresh == exists|j: int|
                    0 <= j < k && !type_has(oldtypes, (#[trigger] cmpg[j]).meta.id.0),
            decreases n - k,
        {
            if !self.archetypes.inner()[a0].meta().contains_dyn(cmp.items[k].meta.id) {
                any_fresh = true;
            }
            k = k + 1;
        }

        if !any_fresh {
            proof {
                assert forall|j: int| 0 <= j < n implies type_has(
                    oldtypes,
                    (#[trigger] cmpg[j]).meta.id.0,
                ) by {
                    if !type_has(oldtypes, cmpg[j].meta.id.0) {
                        assert(0 <= j < n && !type_has(oldtypes, cmpg[j].meta.id.0));
                    }
                }
            }
            self.add_in_place(ent, &cmp);
            true
        } else {
            self.add_migrate(ent, cmp);
            proof {
                assert forall|t: u64|
                    !set_has_id(cmpg, t) implies #[trigger] self.get_spec(ent.id, t)
                        == s0.get_spec(ent.id, t) by {
                    if !type_has(oldtypes, t) {
                        assert(s0.get_spec(ent.id, t) is None);
                    }
                }
            }
            true
        }
    }

    /// Overwrite components the entity already carries, one tuple
    /// element at a time; the entity stays exactly where it is.
    #[verifier::loop_isolation(false)]
    fn add_in_place(&mut self, ent: Entity, cmp: &ComponentSet)
        requires
            old(self).wf(),
            cmp.wf(),
            old(self).admits(cmp),
            old(self).live_spec(ent.id),
            forall|k: int|
                0 <= k < cmp.items@.len() ==> type_has(
                    old(self).types_of(ent.id),
                    (#[trigger] cmp.items@[k]).meta.id.0,
                ),
        ensures
            final(self).wf(),
            final(self).next_id == old(self).next_id,
            final(self).entities == old(self).entities,
            forall|t: u64| #[trigger]
                final(self).get_spec(ent.id, t) == if set_has_id(cmp.items@, t) {
                    Some(cmp.items@[set_idx_of(cmp.items@, t)].bytes@)
                } else {
                    old(self).get_spec(ent.id, t)
                },
            forall|e2: u64, t: u64|
                e2 != ent.id ==> #[trigger] final(self).get_spec(e2, t) == old(self).get_spec(
                    e2,
                    t,
                ),
    {
        let ghost s0 = *self;
        let ghost old_loc = s0.entities.spec_get(ent.id);
        let ghost a0 = old_loc.archetype;
        let ghost oldtypes = s0.types_of(ent.id);
        let ghost cmpg = cmp.items@;
        proof {
            crate::cmp::lemma_set_distinct_ids(cmpg);
        }
        let n = cmp.items.len();
        let mut k: usize = 0;
        while k < n
            invariant
                0 <= k <= n,
                self.wf(),
                self.entities == s0.entities,
                self.next_id == s0.next_id,
                self.archetypes.arch@.len() == s0.archetypes.arch@.len(),
                forall|a: int|
                    0 <= a < s0.archetypes.arch@.len() ==> #[trigger] self.archetypes.arch@[a].meta
                        == s0.archetypes.arch@[a].meta,
                forall|t: u64| #[trigger]
                    self.get_spec(ent.id, t) == if set_has_id(cmpg.take(k as int), t) {
                        Some(cmpg[set_idx_of(cmpg, t)].bytes@)
                    } else {
                        s0.get_spec(ent.id, t)
                    },
                forall|e2: u64, t: u64|
                    e2 != ent.id ==> #[trigger] self.get_spec(e2, t) == s0.get_spec(e2, t),
            decreases n - k,
        {
            let ghost tk = cmpg[k as int].meta.id.0;
            proof {
                assert(type_has(oldtypes, tk));
                assert(!set_has_id(cmpg.take(k as int), tk)) by {
                    if set_has_id(cmpg.take(k as int), tk) {
                        let j = set_idx_of(cmpg.take(k as int), tk);
                        assert(0 <= j < k && cmpg.take(k as int)[j].meta.id.0 == tk);
                        assert(cmpg[j].meta.id.0 == cmpg[k as int].meta.id.0);
                    }
                }
                // the in-place write is accepted: the component is
                // present with an agreeing descriptor
                crate::meta::lemma_type_idx_unique(oldtypes, tk);
                let tix = type_idx(oldtypes, tk);
                assert(metas_of(cmpg)[k as int] == cmpg[k as int].meta);
                assert(oldtypes[tix].id.0 == cmpg[k as int].meta.id.0);
                assert(oldtypes[tix] == cmpg[k as int].meta);
                crate::chunk::lemma_slot_in_alloc(
                    s0.archetypes.arch@[a0 as int].meta,
                    tix,
                    old_loc.index as int,
                );
                assert(self.get_spec(ent.id, tk) == s0.get_spec(ent.id, tk));
                assert(s0.get_spec(ent.id, tk).unwrap().len() == oldtypes[tix].size);
            }
            let ghost pre = *self;
            let wrote = self.set(ent, &cmp.items[k]);
            proof {
                assert(wrote);
                assert(set_idx_of(cmpg, tk) == k as int) by {
                    let j = set_idx_of(cmpg, tk);
                    assert(set_has_id(cmpg, tk));
                    assert(0 <= j < cmpg.len() && cmpg[j].meta.id.0 == tk);
                    if j != k as int {
                        assert(cmpg[j].meta.id.0 != cmpg[k as int].meta.id.0 || j == k as int);
                    }
                }
                assert forall|t: u64| #[trigger]
                    self.get_spec(ent.id, t) == (if set_has_id(cmpg.take(k + 1), t) {
                        Some(cmpg[set_idx_of(cmpg, t)].bytes@)
                    } else {
                        s0.get_spec(ent.id, t)
                    }) by {
                    if t == tk {
                        assert(cmpg.take(k + 1)[k as int].meta.id.0 == tk);
                        assert(set_has_id(cmpg.take(k + 1), tk));
                        assert(self.get_spec(ent.id, tk) == Some(cmpg[k as int].bytes@));
                    } else {
                        assert(self.get_spec(ent.id, t) == pre.get_spec(ent.id, t));
                        assert(set_has_id(cmpg.take(k + 1), t) == set_has_id(
                            cmpg.take(k as int),
                            t,
                        )) by {
                            if set_has_id(cmpg.take(k + 1), t) {
                                let j = set_idx_of(cmpg.take(k + 1), t);
                                assert(0 <= j < k + 1 && cmpg.take(k + 1)[j].meta.id.0 == t);
                                assert(j != k as int);
                                assert(cmpg.take(k as int)[j].meta.id.0 == t);
                            }
                            if set_has_id(cmpg.take(k as int), t) {
                                let j = set_idx_of(cmpg.take(k as int), t);
                                assert(cmpg.take(k + 1)[j].meta.id.0 == t);
                            }
                        }
                    }
                }
            }
            k = k + 1;
        }
        proof {
            assert(cmpg.take(n as int) =~= cmpg);
        }
    }

    /// Collect every component the entity will carry after the tuple is
    /// added: its current types (with the tuple's payload where the
    /// tuple overlaps) followed by the genuinely new components.
    #[verifier::loop_isolation(false)]
    #[verifier::rlimit(100)]
    fn gather_components(&self, ent: Entity, cmp: ComponentSet) -> (result: Vec<CmpData>)
        requires
            self.wf(),
            cmp.wf(),
            self.live_spec(ent.id),
            self.admits(&cmp),
            self.add_fits(ent.id, &cmp),
        ensures
            ({
                let oldtypes = self.types_of(ent.id);
                let cmpg = cmp.items@;
                let n_old = oldtypes.len() as int;
                &&& result@.len() >= n_old
                &&& forall|j: int| 0 <= j < n_old ==> (#[trigger] result@[j]).meta == oldtypes[j]
                &&& forall|j: int|
                    0 <= j < n_old ==> (#[trigger] result@[j]).bytes@ == if set_has_id(
                        cmpg,
                        oldtypes[j].id.0,
                    ) {
                        cmpg[set_idx_of(cmpg, oldtypes[j].id.0)].bytes@
                    } else {
                        self.get_spec(ent.id, oldtypes[j].id.0).unwrap()
                    }
                &&& forall|j: int|
                    n_old <= j < result@.len() ==> !type_has(
                        oldtypes,
                        (#[trigger] result@[j]).meta.id.0,
                    )
                &&& forall|j: int|
                    n_old <= j < result@.len() ==> set_has_id(
                        cmpg,
                        (#[trigger] result@[j]).meta.id.0,
                    ) && result@[j] == cmpg[set_idx_of(cmpg, result@[j].meta.id.0)]
                &&& forall|j1: int, j2: int|
                    0 <= j1 < j2 < result@.len() ==> (#[trigger] result@[j1]).meta.id.0 != (
                    #[trigger] result@[j2]).meta.id.0
                &&& forall|k2: int|
                    0 <= k2 < cmpg.len() && !type_has(oldtypes, (#[trigger] cmpg[k2]).meta.id.0)
                        ==> set_has_id(result@, cmpg[k2].meta.id.0)
                &&& forall|j: int|
                    0 <= j < result@.len() ==> crate::cmp::is_pow2(
                        (#[trigger] result@[j]).meta.align as int,
                    ) && result@[j].meta.align <= 16_384 && result@[j].bytes@.len()
                        == result@[j].meta.size && result@[j].meta.size >= 1
                &&& spec_entry_size(metas_of(result@)) <= 16_000
            }),
    {
        let ghost s0 = *self;
        let old_loc = self.entities.get(ent);
        let a0 = old_loc.archetype();
        proof {
            assert(s0.entities.spec_get(ent.id) == old_loc);
        }
        let ghost oldtypes = s0.types_of(ent.id);
        let ghost cmpg = cmp.items@;
        proof {
            crate::cmp::lemma_set_distinct_ids(cmpg);
        }

        let mut result: Vec<CmpData> = Vec::new();
        let n_old = self.archetypes.inner()[a0].meta().types.len();
        let mut ti: usize = 0;
        while ti < n_old
            invariant
                0 <= ti <= n_old,
                result@.len() == ti,
                forall|j: int| 0 <= j < ti ==> (#[trigger] result@[j]).meta == oldtypes[j],
                forall|j: int|
                    0 <= j < ti ==> (#[trigger] result@[j]).bytes@ == if set_has_id(
                        cmpg,
                        oldtypes[j].id.0,
                    ) {
                        cmpg[set_idx_of(cmpg, oldtypes[j].id.0)].bytes@
                    } else {
                        s0.get_spec(ent.id, oldtypes[j].id.0).unwrap()
                    },
                forall|j: int|
                    0 <= j < ti ==> (#[trigger] result@[j]).bytes@.len() == result@[j].meta.size,
            decreases n_old - ti,
        {
            let tmeta = self.archetypes.inner()[a0].meta().types[ti];
            proof {
                assert(tmeta == oldtypes[ti as int]);
                assert(type_has(oldtypes, tmeta.id.0));
                crate::meta::lemma_type_idx_unique(oldtypes, tmeta.id.0);
                assert(type_idx(oldtypes, tmeta.id.0) == ti);
                crate::chunk::lemma_slot_in_alloc(
                    s0.archetypes.arch@[a0 as int].meta,
                    ti as int,
                    old_loc.index as int,
                );
            }
            let bytes: Vec<u8>;
            match cmp.find(tmeta.id) {
                Some(ci2) => {
                    proof {
                        assert(cmpg[ci2 as int].meta.id.0 == tmeta.id.0);
                        assert(metas_of(cmpg)[ci2 as int] == cmpg[ci2 as int].meta);
                        assert(cmpg[ci2 as int].meta == oldtypes[ti as int]);
                    }
                    bytes = copy_bytes(&cmp.items[ci2].bytes);
                },
                None => {
                    bytes = match self.get(ent, tmeta.id) {
                        Some(b) => b,
                        None => {
                            proof {
                                assert(false);
                            }
                            Vec::new()
                        },
                    };
                },
            }
            result.push(CmpData { meta: tmeta, bytes });
            ti = ti + 1;
        }
        proof {
            assert(metas_of(result@) =~= oldtypes);
        }

        // append the components the entity does not yet have
        proof {
            assert forall|j: int|
                0 <= j < result@.len() implies (#[trigger] result@[j]).bytes@.len()
                == result@[j].meta.size by {}
        }
        let arch_ref = self.archetypes.inner();
        append_fresh(&arch_ref[a0].meta, &mut result, cmp.items);
        proof {
            assert forall|j: int|
                oldtypes.len() <= j < result@.len() implies set_has_id(
                cmpg,
                (#[trigger] result@[j]).meta.id.0,
            ) && result@[j] == cmpg[set_idx_of(cmpg, result@[j].meta.id.0)] by {
                let kx = choose|kx: int| 0 <= kx < cmpg.len() && cmpg[kx] == result@[j];
                assert(cmpg[kx].meta.id.0 == result@[j].meta.id.0);
                assert(set_has_id(cmpg, result@[j].meta.id.0));
                let k3 = set_idx_of(cmpg, result@[j].meta.id.0);
                assert(0 <= k3 < cmpg.len() && cmpg[k3].meta.id.0 == result@[j].meta.id.0);
                if k3 != kx {
                    assert(cmpg[k3].meta.id.0 != cmpg[kx].meta.id.0 || k3 == kx);
                }
            }
            assert forall|j: int|
                0 <= j < result@.len() implies crate::cmp::is_pow2(
                (#[trigger] result@[j]).meta.align as int,
            ) && result@[j].meta.align <= 16_384 && result@[j].bytes@.len()
                == result@[j].meta.size && result@[j].meta.size >= 1 by {
                if j < oldtypes.len() {
                    assert(crate::cmp::meta_wf(oldtypes[j]));
                } else {
                    let kx = choose|kx: int| 0 <= kx < cmpg.len() && cmpg[kx] == result@[j];
                    assert(metas_of(cmpg)[kx] == cmpg[kx].meta);
                    assert(crate::cmp::meta_wf(cmpg[kx].meta));
                    assert(cmpg[kx].bytes@.len() == cmpg[kx].meta.size);
                }
            }
            assert(spec_entry_size(metas_of(result@)) <= 16_000);
        }
        result
    }

    /// Move the entity to the archetype of its current components plus
    /// the tuple's: read everything it will carry, vacate its old slot,
    /// and place it back under its own id.
    #[verifier::loop_isolation(false)]
    #[verifier::rlimit(60)]
    fn add_migrate(&mut self, ent: Entity, cmp: ComponentSet)
        requires
            old(self).wf(),
            cmp.wf(),
            old(self).admits(&cmp),
            old(self).add_fits(ent.id, &cmp),
            old(self).live_spec(ent.id),
            exists|k: int|
                0 <= k < cmp.items@.len() && !type_has(
                    old(self).types_of(ent.id),
                    (#[trigger] cmp.items@[k]).meta.id.0,
                ),
        ensures
            final(self).wf(),
            final(self).next_id == old(self).next_id,
            forall|e2: u64| #[trigger]
                final(self).live_spec(e2) == old(self).live_spec(e2),
            forall|t: u64| #[trigger]
                final(self).get_spec(ent.id, t) == (if set_has_id(cmp.items@, t) {
                    Some(cmp.items@[set_idx_of(cmp.items@, t)].bytes@)
                } else if type_has(old(self).types_of(ent.id), t) {
                    old(self).get_spec(ent.id, t)
                } else {
                    None::<Seq<u8>>
                }),
            forall|e2: u64, t: u64|
                e2 != ent.id ==> #[trigger] final(self).get_spec(e2, t) == old(self).get_spec(
                    e2,
                    t,
                ),
            final(self).entities.spec_get(ent.id).archetype != old(self).entities.spec_get(
                ent.id,
            ).archetype,
    {
        let ghost s0 = *self;
        let ghost old_loc = s0.entities.spec_get(ent.id);
        let ghost a0 = old_loc.archetype;
        let ghost oldtypes = s0.types_of(ent.id);
        let ghost cmpg = cmp.items@;
        let ghost n_old = oldtypes.len() as int;
        proof {
            lemma_vec_len_bound(&self.archetypes.arch);
            crate::cmp::lemma_set_distinct_ids(cmpg);
        }

        let result = self.gather_components(ent, cmp);
        let ghost resultg = result@;

        // canonicalize the union; by construction it has no duplicates,
        // no empty payloads and fits the chunk budget
        let target_set = match ComponentSet::new(result) {
            Ok(ts) => ts,
            Err(_) => {
                proof {
                    assert(!has_dup_id(resultg)) by {
                        if has_dup_id(resultg) {
                            let (i, j) = choose|i: int, j: int|
                                0 <= i < j < resultg.len() && (#[trigger] resultg[i]).meta.id.0 == (
                                #[trigger] resultg[j]).meta.id.0;
                            assert(resultg[i].meta.id.0 != resultg[j].meta.id.0);
                        }
                    }
                    assert(!has_empty_cmp(resultg)) by {
                        if has_empty_cmp(resultg) {
                            let i = choose|i: int|
                                0 <= i < resultg.len() && (#[trigger] resultg[i]).meta.size == 0;
                            assert(resultg[i].meta.size >= 1);
                        }
                    }
                    assert(false);
                }
                ComponentSet::empty()
            },
        };
        let ghost tsg = target_set.items@;

        // vacate the old slot, then place the entity back under its own
        // id with everything it carries
        let was = self.despawn(ent);
        let ghost s1 = *self;
        proof {
            assert(was);
            assert(!self.live_spec(ent.id));
            assert(ent.id < self.next_id);
            // the union's descriptors agree with the registry
            resultg.to_multiset_ensures();
            tsg.to_multiset_ensures();
            assert forall|i: int, j: int, k2: int|
                0 <= i < self.archetypes.arch@.len() && 0 <= j
                    < self.archetypes.arch@[i].meta.types@.len() && 0 <= k2 < metas_of(tsg).len()
                    && (#[trigger] self.archetypes.arch@[i].meta.types@[j]).id.0 == (
                #[trigger] metas_of(tsg)[k2]).id.0 implies self.archetypes.arch@[i].meta.types@[j]
                == metas_of(tsg)[k2] by {
                assert(metas_of(tsg)[k2] == tsg[k2].meta);
                let d = tsg[k2];
                assert(tsg[k2] == d);
                assert(tsg.contains(d));
                assert(tsg.to_multiset().count(d) > 0);
                assert(resultg.to_multiset().count(d) > 0);
                assert(resultg.contains(d));
                let j2 = choose|j2: int| 0 <= j2 < resultg.len() && resultg[j2] == d;
                assert(self.archetypes.arch@[i].chunks@.len()
                    == s0.archetypes.arch@[i].chunks@.len());
                assert(self.archetypes.arch@[i].meta == s0.archetypes.arch@[i].meta);
                if j2 < n_old {
                    assert(d.meta == oldtypes[j2]);
                    assert(s0.archetypes.arch@[a0 as int].meta.types@[j2] == d.meta);
                } else {
                    let kx = set_idx_of(cmpg, d.meta.id.0);
                    assert(d == cmpg[kx]);
                    assert(metas_of(cmpg)[kx] == cmpg[kx].meta);
                }
            }
            assert(self.admits(&target_set));
        }
        self.spawn_id(ent.id, target_set);
        proof {
            // read the entity's components back through the permutation
            assert forall|t: u64| #[trigger]
                self.get_spec(ent.id, t) == (if set_has_id(cmpg, t) {
                    Some(cmpg[set_idx_of(cmpg, t)].bytes@)
                } else if type_has(oldtypes, t) {
                    s0.get_spec(ent.id, t)
                } else {
                    None::<Seq<u8>>
                }) by {
                crate::cmp::lemma_set_lookup_permutation(tsg, resultg, t);
                if set_has_id(resultg, t) {
                    let j = set_idx_of(resultg, t);
                    assert(0 <= j < resultg.len() && resultg[j].meta.id.0 == t);
                    assert(self.get_spec(ent.id, t) == Some(resultg[j].bytes@));
                    if j < n_old {
                        assert(resultg[j].meta == oldtypes[j]);
                        assert(type_has(oldtypes, t));
                        crate::meta::lemma_type_idx_unique(oldtypes, t);
                        assert(type_idx(oldtypes, t) == j);
                        if !set_has_id(cmpg, t) {
                            assert(resultg[j].bytes@ == s0.get_spec(ent.id, t).unwrap());
                            assert(s0.get_spec(ent.id, t) is Some);
                        }
                    } else {
                        assert(!type_has(oldtypes, t));
                        assert(set_has_id(cmpg, t));
                        assert(resultg[j] == cmpg[set_idx_of(cmpg, resultg[j].meta.id.0)]);
                    }
                } else {
                    assert(!set_has_id(cmpg, t)) by {
                        if set_has_id(cmpg, t) {
                            let kx = set_idx_of(cmpg, t);
                            if type_has(oldtypes, t) {
                                crate::meta::lemma_type_idx_unique(oldtypes, t);
                                let j = type_idx(oldtypes, t);
                                assert(resultg[j].meta.id.0 == t);
                                assert(set_has_id(resultg, t));
                            } else {
                                assert(set_has_id(resultg, cmpg[kx].meta.id.0));
                            }
                        }
                    }
                    assert(!type_has(oldtypes, t)) by {
                        if type_has(oldtypes, t) {
                            crate::meta::lemma_type_idx_unique(oldtypes, t);
                            let j = type_idx(oldtypes, t);
                            assert(resultg[j].meta.id.0 == t);
                            assert(set_has_id(resultg, t));
                        }
                    }
                }
            }
            // the entity moved to an archetype with strictly more types
            assert(resultg.len() > n_old) by {
                let kf = choose|kf: int|
                    0 <= kf < cmpg.len() && !type_has(oldtypes, (#[trigger] cmpg[kf]).meta.id.0);
                assert(set_has_id(resultg, cmpg[kf].meta.id.0));
                let j = set_idx_of(resultg, cmpg[kf].meta.id.0);
                assert(0 <= j < resultg.len() && resultg[j].meta.id.0 == cmpg[kf].meta.id.0);
                if j < n_old {
                    assert(resultg[j].meta == oldtypes[j]);
                    assert(type_has(oldtypes, cmpg[kf].meta.id.0));
                }
            }
            assert forall|e2: u64| #[trigger] self.live_spec(e2) == s0.live_spec(e2) by {
                if e2 == ent.id {
                    assert(self.live_spec(ent.id));
                } else {
                    assert(self.entities.spec_get(e2) == s1.entities.spec_get(e2));
                    assert(s1.live_spec(e2) == s0.live_spec(e2));
                }
            }
            assert(self.entities.spec_get(ent.id).archetype != a0) by {
                let l = self.entities.spec_get(ent.id);
                let an = l.archetype as int;
                assert(self.archetypes.arch@[an].meta.types@ == metas_of(tsg));
                assert(metas_of(tsg).len() == resultg.len());
                if an == a0 as int {
                    assert(self.archetypes.arch@[a0 as int].chunks@.len() >= 0);
                    assert(s1.archetypes.arch@[a0 as int].chunks@.len() >= 0);
                    assert(self.archetypes.arch@[a0 as int].meta
                        == s1.archetypes.arch@[a0 as int].meta);
                    assert(s1.archetypes.arch@[a0 as int].meta
                        == s0.archetypes.arch@[a0 as int].meta);
                    assert(self.archetypes.arch@[an].meta.types@.len() == oldtypes.len());
                }
            }
        }
    }
}

impl Default for Scene {
    /// a scene with no entities and no archetypes
    fn default() -> (r: Scene)
        ensures
            r.wf(),
            r.next_id == 0,
            forall|e: u64| !(#[trigger] r.live_spec(e)),
            r.archetypes.arch@.len() == 0,
    {
        Scene::new()
    }
}

/// Append to `result`, which starts with one value per column of
/// `meta`, those elements of `items` whose types `meta` does not store.
#[verifier::loop_isolation(false)]
fn append_fresh(meta: &crate::meta::ArchetypeMeta, result: &mut Vec<CmpData>, items: Vec<CmpData>)
    requires
        meta.wf(),
        forall|i: int, j: int|
            0 <= i < j < items@.len() ==> (#[trigger] items@[i]).meta.id.0 != (
            #[trigger] items@[j]).meta.id.0,
        old(result)@.len() == meta.types@.len(),
        forall|j: int|
            0 <= j < old(result)@.len() ==> (#[trigger] old(result)@[j]).meta == meta.types@[j],
    ensures
        final(result)@.len() >= old(result)@.len(),
        forall|j: int|
            0 <= j < old(result)@.len() ==> #[trigger] final(result)@[j] == old(result)@[j],
        forall|j: int|
            old(result)@.len() <= j < final(result)@.len() ==> !type_has(
                meta.types@,
                (#[trigger] final(result)@[j]).meta.id.0,
            ),
        forall|j: int|
            old(result)@.len() <= j < final(result)@.len() ==> items@.contains(
                #[trigger] final(result)@[j],
            ),
        forall|j1: int, j2: int|
            0 <= j1 < j2 < final(result)@.len() ==> (#[trigger] final(result)@[j1]).meta.id.0 != (
            #[trigger] final(result)@[j2]).meta.id.0,
        forall|k2: int|
            0 <= k2 < items@.len() && !type_has(meta.types@, (#[trigger] items@[k2]).meta.id.0)
                ==> set_has_id(final(result)@, items@[k2].meta.id.0),
        spec_entry_size(metas_of(final(result)@)) == spec_entry_size(metas_of(old(result)@))
            + spec_added_size(meta.types@, items@),
{
    let ghost items0 = items@;
    let ghost res0 = result@;
    let ghost n_old = res0.len() as int;
    proof {
        assert forall|j1: int, j2: int|
            0 <= j1 < j2 < res0.len() implies (#[trigger] res0[j1]).meta.id.0 != (
        #[trigger] res0[j2]).meta.id.0 by {
            assert(res0[j1].meta == meta.types@[j1]);
            assert(res0[j2].meta == meta.types@[j2]);
        }
    }
    let mut items = items;
    proof {
        assert(items@ =~= items0.take(items@.len() as int));
    }
    while items.len() > 0
        invariant
            items@.len() <= items0.len(),
            items@ == items0.take(items@.len() as int),
            result@.len() >= n_old,
            forall|j: int| 0 <= j < n_old ==> #[trigger] result@[j] == res0[j],
            forall|j: int|
                n_old <= j < result@.len() ==> !type_has(
                    meta.types@,
                    (#[trigger] result@[j]).meta.id.0,
                ),
            forall|j: int|
                n_old <= j < result@.len() ==> items0.contains(#[trigger] result@[j]),
            forall|j1: int, j2: int|
                0 <= j1 < j2 < result@.len() ==> (#[trigger] result@[j1]).meta.id.0 != (
                #[trigger] result@[j2]).meta.id.0,
            forall|j: int|
                n_old <= j < result@.len() ==> !set_has_id(
                    items@,
                    (#[trigger] result@[j]).meta.id.0,
                ),
            forall|k2: int|
                items@.len() <= k2 < items0.len() && !type_has(
                    meta.types@,
                    (#[trigger] items0[k2]).meta.id.0,
                ) ==> set_has_id(result@, items0[k2].meta.id.0),
            spec_entry_size(metas_of(result@)) + spec_added_size(meta.types@, items@)
                == spec_entry_size(metas_of(res0)) + spec_added_size(meta.types@, items0),
        decreases items@.len(),
    {
        let ghost pre_items = items@;
        let x = match items.pop() {
            Some(x) => x,
            None => {
                proof {
                    assert(false);
                }
                return ;
            },
        };
        let is_fresh = !meta.contains_dyn(x.meta.id);
        proof {
            assert(pre_items == items0.take(pre_items.len() as int));
            assert(pre_items.last() == x);
            assert(pre_items.drop_last() =~= items@);
            assert(x == pre_items[pre_items.len() - 1]);
            assert(x == items0[pre_items.len() - 1]);
            assert forall|ii: int| 0 <= ii < items@.len() implies items@[ii] == items0[ii] by {
                assert(items@[ii] == pre_items[ii]);
            }
            assert(items@ =~= items0.take(items@.len() as int));
            assert(spec_added_size(meta.types@, pre_items) == spec_added_size(
                meta.types@,
                items@,
            ) + (if type_has(meta.types@, x.meta.id.0) {
                0int
            } else {
                x.meta.size as int
            }));
        }
        if is_fresh {
            let ghost pre_res = result@;
            let ghost xpos = pre_items.len() - 1;
            proof {
                assert(items0.contains(x)) by {
                    assert(items0[xpos] == x);
                }
                assert(!set_has_id(items@, x.meta.id.0)) by {
                    if set_has_id(items@, x.meta.id.0) {
                        let j = set_idx_of(items@, x.meta.id.0);
                        assert(items@[j].meta.id.0 == x.meta.id.0);
                        assert(items0[j].meta.id.0 == items0[xpos].meta.id.0);
                        assert(j < xpos);
                    }
                }
            }
            result.push(x);
            proof {
                assert(metas_of(result@).drop_last() =~= metas_of(pre_res));
                assert(metas_of(result@).last() == x.meta);
                assert(spec_entry_size(metas_of(result@)) == spec_entry_size(metas_of(pre_res))
                    + x.meta.size);
                assert forall|j1: int, j2: int|
                    0 <= j1 < j2 < result@.len() implies (#[trigger] result@[j1]).meta.id.0 != (
                #[trigger] result@[j2]).meta.id.0 by {
                    if j2 == result@.len() - 1 {
                        assert(result@[j2] == x);
                        if j1 < n_old {
                            assert(result@[j1].meta == meta.types@[j1]);
                            assert(type_has(meta.types@, result@[j1].meta.id.0));
                        }
                    }
                }
                assert forall|k2: int|
                    items@.len() <= k2 < items0.len() && !type_has(
                        meta.types@,
                        (#[trigger] items0[k2]).meta.id.0,
                    ) implies set_has_id(result@, items0[k2].meta.id.0) by {
                    if k2 == xpos {
                        assert(result@[result@.len() - 1].meta.id.0 == items0[k2].meta.id.0);
                    } else {
                        assert(set_has_id(pre_res, items0[k2].meta.id.0));
                        let j = set_idx_of(pre_res, items0[k2].meta.id.0);
                        assert(result@[j].meta.id.0 == items0[k2].meta.id.0);
                    }
                }
            }
        } else {
            proof {
                assert(type_has(meta.types@, x.meta.id.0));
                assert forall|k2: int|
                    items@.len() <= k2 < items0.len() && !type_has(
                        meta.types@,
                        (#[trigger] items0[k2]).meta.id.0,
                    ) implies set_has_id(result@, items0[k2].meta.id.0) by {
                    assert(k2 != pre_items.len() - 1);
                }
            }
        }
    }
    proof {
        assert(items@ =~= Seq::<CmpData>::empty());
        assert(items0.take(0) =~= Seq::<CmpData>::empty());
        assert(spec_added_size(meta.types@, items@) == 0);
    }
}

/// A vector never holds more elements than `usize` can count.
proof fn lemma_vec_len_bound<T>(v: &Vec<T>)
    ensures
        v@.len() <= usize::MAX,
{
    broadcast use vstd::std_specs::vec::axiom_spec_len;

    assert(vstd::std_specs::vec::spec_vec_len(v) == v@.len());
}

} // verus!
