use ezgame::{
    ArchetypeMeta, CmpData, CmpId, CmpMeta, ComponentSet, EcsError, Entity, EntityLocation,
    EntityMap, Scene,
};

fn pos_meta() -> CmpMeta {
    CmpMeta::new(CmpId::from_u64(1), 12, 4)
}

fn vel_meta() -> CmpMeta {
    CmpMeta::new(CmpId::from_u64(2), 12, 4)
}

fn name_meta() -> CmpMeta {
    CmpMeta::new(CmpId::from_u64(3), 16, 8)
}

fn vec3_bytes(x: i32, y: i32, z: i32) -> Vec<u8> {
    let mut b = Vec::new();
    b.extend_from_slice(&x.to_le_bytes());
    b.extend_from_slice(&y.to_le_bytes());
    b.extend_from_slice(&z.to_le_bytes());
    b
}

fn pos(x: i32, y: i32, z: i32) -> CmpData {
    CmpData { meta: pos_meta(), bytes: vec3_bytes(x, y, z) }
}

fn vel(x: i32, y: i32, z: i32) -> CmpData {
    CmpData { meta: vel_meta(), bytes: vec3_bytes(x, y, z) }
}

fn name(s: &str) -> CmpData {
    let mut b = vec![0u8; 16];
    let raw = s.as_bytes();
    let n = raw.len().min(15);
    b[0] = n as u8;
    b[1..1 + n].copy_from_slice(&raw[..n]);
    CmpData { meta: name_meta(), bytes: b }
}

fn set(items: Vec<CmpData>) -> ComponentSet {
    ComponentSet::new(items).unwrap()
}

// capacity law: floor(16000 / entry_size) == layout capacity; with
// Pos=12B and Vel=12B the entry is 8 + 12 + 12 = 32 bytes, so one chunk
// holds 500 entities in exactly 16000 allocated bytes
#[test]
fn capacity_law_pos_vel() {
    let metas = set(vec![pos(0, 0, 0), vel(0, 0, 0)]).metas();
    let meta = ArchetypeMeta::new(0, &metas);
    assert_eq!(meta.max, 500);
    assert_eq!(meta.alloc, 16_000);
    // the id column fills [0, 4000); Pos sits at 4000, Vel at 10000
    assert_eq!(meta.offsets, vec![4000, 10_000]);
}

// the empty set still has the id column: entry 8, capacity 2000
#[test]
fn capacity_law_empty() {
    let metas: Vec<CmpMeta> = Vec::new();
    let meta = ArchetypeMeta::new(0, &metas);
    assert_eq!(meta.max, 2000);
    assert_eq!(meta.alloc, 16_000);
}

// spawning 100_000 (Pos, Vel) entities fills exactly 200 chunks, each
// full chunk holding 500 entities
#[test]
fn chunk_packing() {
    const N: usize = 100_000;

    let mut scene = Scene::default();
    for _ in 0..N {
        scene.spawn(set(vec![pos(0, 0, 0), vel(0, 0, 0)]));
    }

    let arch = scene
        .archetype(&set(vec![pos(0, 0, 0), vel(0, 0, 0)]).ty())
        .unwrap();
    assert_eq!(arch.chunks().len(), 200);
    for c in arch.chunks() {
        assert_eq!(c.len(), 500);
    }
}

// distinct spawns get distinct, consecutive ids, each with a live
// directory entry
#[test]
fn distinct_spawn_ids() {
    let mut scene = Scene::default();
    let mut ids = Vec::new();
    for _ in 0..5 {
        let e = scene.spawn(ComponentSet::empty());
        assert!(scene.contains(e));
        ids.push(e.id());
    }
    assert_eq!(ids, vec![0, 1, 2, 3, 4]);
}

// adding a new component migrates the entity and vacates its old
// archetype
#[test]
fn add_migrates_archetype() {
    let mut scene = Scene::default();
    let e0 = scene.spawn(set(vec![pos(1, 2, 3), vel(9, 8, 7)]));

    assert!(scene.add(e0, set(vec![name("X")])));

    assert_eq!(scene.get(e0, pos_meta().id()), Some(vec3_bytes(1, 2, 3)));
    assert_eq!(scene.get(e0, vel_meta().id()), Some(vec3_bytes(9, 8, 7)));
    assert_eq!(scene.get(e0, name_meta().id()), Some(name("X").bytes));

    let pos_vel = scene
        .archetype(&set(vec![pos(0, 0, 0), vel(0, 0, 0)]).ty())
        .unwrap();
    assert_eq!(pos_vel.chunks()[0].len(), 0);

    let union = scene
        .archetype(&set(vec![pos(0, 0, 0), vel(0, 0, 0), name("")]).ty())
        .unwrap();
    assert_eq!(union.chunks()[0].len(), 1);
}

// adding a component the entity already has overwrites in place and
// keeps its location
#[test]
fn add_present_overwrites_in_place() {
    let mut scene = Scene::default();
    let e0 = scene.spawn(set(vec![pos(1, 2, 3), vel(9, 8, 7)]));
    let e1 = scene.spawn(set(vec![pos(4, 5, 6), vel(7, 7, 7)]));

    assert!(scene.add(e0, set(vec![pos(100, 200, 300)])));

    assert_eq!(scene.get(e0, pos_meta().id()), Some(vec3_bytes(100, 200, 300)));
    assert_eq!(scene.get(e0, vel_meta().id()), Some(vec3_bytes(9, 8, 7)));
    assert_eq!(scene.get(e1, pos_meta().id()), Some(vec3_bytes(4, 5, 6)));

    // only one archetype exists: the entity did not move
    let arch = scene
        .archetype(&set(vec![pos(0, 0, 0), vel(0, 0, 0)]).ty())
        .unwrap();
    assert_eq!(arch.chunks()[0].len(), 2);
}

// despawning everything reclaims every slot without freeing any chunk
#[test]
fn despawn_all_reclaims_length() {
    const N: u64 = 1200;

    let mut scene = Scene::default();
    for _ in 0..N {
        scene.spawn(set(vec![pos(0, 0, 0), vel(0, 0, 0)]));
    }
    let key = set(vec![pos(0, 0, 0), vel(0, 0, 0)]).ty();
    let chunk_count = scene.archetype(&key).unwrap().chunks().len();
    assert_eq!(chunk_count, 3);

    for id in 0..N {
        assert!(scene.despawn(Entity::from_id(id)));
    }

    let arch = scene.archetype(&key).unwrap();
    assert_eq!(arch.chunks().len(), chunk_count);
    for c in arch.chunks() {
        assert_eq!(c.len(), 0);
    }
}

// the canonical order sorts by alignment first (descending), then by id
#[test]
fn canonical_sort_order() {
    let s = set(vec![pos(0, 0, 0), vel(0, 0, 0), name("")]);
    // Name has alignment 8, so it leads; Pos and Vel tie on alignment 4
    // and fall back to id order
    assert_eq!(s.ty(), vec![3, 1, 2]);
}

// a duplicated component type in one tuple is rejected
#[test]
fn duplicate_component_rejected() {
    let err = ComponentSet::new(vec![pos(0, 0, 0), pos(1, 1, 1)]).unwrap_err();
    assert_eq!(err, EcsError::DuplicateComponentInSet);
}

// a component with no bytes at all is rejected
#[test]
fn empty_component_rejected() {
    let zero = CmpData { meta: CmpMeta::new(CmpId::from_u64(9), 0, 1), bytes: Vec::new() };
    let err = ComponentSet::new(vec![zero]).unwrap_err();
    assert_eq!(err, EcsError::EmptyOrOversizedComponent);
}

// a component set whose entry outgrows the chunk budget is rejected
#[test]
fn oversized_component_rejected() {
    let big = CmpData {
        meta: CmpMeta::new(CmpId::from_u64(9), 16_000, 1),
        bytes: vec![0u8; 16_000],
    };
    let err = ComponentSet::new(vec![big]).unwrap_err();
    assert_eq!(err, EcsError::EmptyOrOversizedComponent);
}

// directory round-trip: insert then get returns the inserted location
#[test]
fn directory_round_trip() {
    let mut map = EntityMap::new();
    let e = Entity::from_id(37);
    let loc = EntityLocation::new(2, 5, 11);

    map.insert(e, loc);
    assert_eq!(map.get(e), loc);
    assert!(map.contains(e));

    map.remove(e);
    assert_eq!(map.get(e), EntityLocation::null());
    assert!(!map.contains(e));
}

// swap-remove locality: despawning the last slot moves nobody;
// despawning a middle slot moves exactly the last entity into it
#[test]
fn swap_remove_locality() {
    let mut scene = Scene::default();
    let e0 = scene.spawn(set(vec![pos(10, 0, 0), vel(0, 0, 0)]));
    let e1 = scene.spawn(set(vec![pos(20, 0, 0), vel(0, 0, 0)]));
    let e2 = scene.spawn(set(vec![pos(30, 0, 0), vel(0, 0, 0)]));

    // e2 sits last: removing it moves nobody
    assert!(scene.despawn(e2));
    assert_eq!(scene.get(e0, pos_meta().id()), Some(vec3_bytes(10, 0, 0)));
    assert_eq!(scene.get(e1, pos_meta().id()), Some(vec3_bytes(20, 0, 0)));

    // e0 sits first: removing it swaps e1 into slot 0
    assert!(scene.despawn(e0));
    let key = set(vec![pos(0, 0, 0), vel(0, 0, 0)]).ty();
    let arch = scene.archetype(&key).unwrap();
    assert_eq!(arch.chunks()[0].entities(), &vec![e1.id()]);
    assert_eq!(scene.get(e1, pos_meta().id()), Some(vec3_bytes(20, 0, 0)));
}
