use ezgame::{CmpData, CmpId, CmpMeta, ComponentSet, Entity, Scene};

// Pos and Vel are 12-byte, 4-aligned components of three integers;
// Name is a 16-byte, 8-aligned fixed text component.
fn pos_meta() -> CmpMeta {
    CmpMeta::new(CmpId::from_u64(1), 12, 4)
}

fn vel_meta() -> CmpMeta {
    CmpMeta::new(CmpId::from_u64(2), 12, 4)
}

fn name_meta() -> CmpMeta {
    CmpMeta::new(CmpId::from_u64(3), 16, 8)
}

fn vec3_bytes(x: i32, y: i32, z: i32) -> Vec<u8> {
    let mut b = Vec::new();
    b.extend_from_slice(&x.to_le_bytes());
    b.extend_from_slice(&y.to_le_bytes());
    b.extend_from_slice(&z.to_le_bytes());
    b
}

fn pos(x: i32, y: i32, z: i32) -> CmpData {
    CmpData { meta: pos_meta(), bytes: vec3_bytes(x, y, z) }
}

fn vel(x: i32, y: i32, z: i32) -> CmpData {
    CmpData { meta: vel_meta(), bytes: vec3_bytes(x, y, z) }
}

fn name(s: &str) -> CmpData {
    let mut b = vec![0u8; 16];
    let raw = s.as_bytes();
    let n = raw.len().min(15);
    b[0] = n as u8;
    b[1..1 + n].copy_from_slice(&raw[..n]);
    CmpData { meta: name_meta(), bytes: b }
}

fn set(items: Vec<CmpData>) -> ComponentSet {
    ComponentSet::new(items).unwrap()
}

#[test]
fn add_component() {
    let mut scene = Scene::default();

    let ent0 = scene.spawn(set(vec![pos(1, 2, 3), vel(9, 8, 7)]));

    println!(
        "{} has {:?} and {:?}",
        ent0.id(),
        scene.get(ent0, pos_meta().id()),
        scene.get(ent0, vel_meta().id())
    );
    println!("adding a Name(\"My Entity 0\") to {}...", ent0.id());

    scene.add(ent0, set(vec![name("My Entity 0")]));

    println!(
        "{} has {:?} and {:?} and {:?}",
        ent0.id(),
        scene.get(ent0, pos_meta().id()),
        scene.get(ent0, vel_meta().id()),
        scene.get(ent0, name_meta().id())
    );

    let chunk = scene
        .archetype(&set(vec![pos(0, 0, 0), vel(0, 0, 0)]).ty())
        .unwrap()
        .chunks()
        .first()
        .unwrap();
    println!("(Pos, Vel) chunk should be empty...");
    println!("(Pos, Vel) chunk is now: {:?}", chunk.entities());
}

#[test]
fn add_many() {
    const N: u64 = 100_000;

    let mut scene = Scene::default();

    for _ in 0..N {
        let e = scene.spawn(set(vec![pos(0, 0, 0), vel(0, 0, 0)]));

        assert!(scene.get(e, pos_meta().id()).is_some());
        assert!(scene.get(e, vel_meta().id()).is_some());
        assert!(scene.get(e, name_meta().id()).is_none());

        scene.add(e, set(vec![name("...")]));

        assert!(scene.get(e, pos_meta().id()).is_some());
        assert!(scene.get(e, vel_meta().id()).is_some());
        assert!(scene.get(e, name_meta().id()).is_some());
    }

    println!("done adding... proceeding to re-checks");

    for id in 0..N {
        let e = Entity::from_id(id);

        assert!(scene.get(e, pos_meta().id()).is_some());
        assert!(scene.get(e, vel_meta().id()).is_some());
        assert!(scene.get(e, name_meta().id()).is_some());
    }
}
