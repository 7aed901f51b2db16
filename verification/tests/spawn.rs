use ezgame::{CmpData, CmpId, CmpMeta, ComponentSet, Scene};

// Pos and Vel are 12-byte, 4-aligned components of three floats; Name
// is a 16-byte, 8-aligned fixed text component.
fn pos_meta() -> CmpMeta {
    CmpMeta::new(CmpId::from_u64(1), 12, 4)
}

fn vel_meta() -> CmpMeta {
    CmpMeta::new(CmpId::from_u64(2), 12, 4)
}

fn name_meta() -> CmpMeta {
    CmpMeta::new(CmpId::from_u64(3), 16, 8)
}

fn vec3_bytes(x: f32, y: f32, z: f32) -> Vec<u8> {
    let mut b = Vec::new();
    b.extend_from_slice(&x.to_le_bytes());
    b.extend_from_slice(&y.to_le_bytes());
    b.extend_from_slice(&z.to_le_bytes());
    b
}

fn pos(x: f32, y: f32, z: f32) -> CmpData {
    CmpData { meta: pos_meta(), bytes: vec3_bytes(x, y, z) }
}

fn vel(x: f32, y: f32, z: f32) -> CmpData {
    CmpData { meta: vel_meta(), bytes: vec3_bytes(x, y, z) }
}

fn name(s: &str) -> CmpData {
    let mut b = vec![0u8; 16];
    let raw = s.as_bytes();
    let n = raw.len().min(15);
    b[0] = n as u8;
    b[1..1 + n].copy_from_slice(&raw[..n]);
    CmpData { meta: name_meta(), bytes: b }
}

fn set(items: Vec<CmpData>) -> ComponentSet {
    ComponentSet::new(items).unwrap()
}

#[test]
fn spawn_main_thread() {
    let mut scene = Scene::default();

    let ent0 = scene.spawn(ComponentSet::empty());
    let ent1 = scene.spawn(ComponentSet::empty());
    let ent2 = scene.spawn(ComponentSet::empty());
    let ent3 = scene.spawn(ComponentSet::empty());
    let ent4 = scene.spawn(ComponentSet::empty());

    println!("spawned:");
    println!("0: {}", ent0.id());
    println!("1: {}", ent1.id());
    println!("2: {}", ent2.id());
    println!("3: {}", ent3.id());
    println!("4: {}", ent4.id());
}

#[test]
fn spawn_many() {
    const N: usize = 100_000;

    let mut scene = Scene::default();

    for _ in 0..N {
        scene.spawn(set(vec![pos(0.0, 0.0, 0.0), vel(0.0, 0.0, 0.0)]));
    }
    let chunks = scene
        .archetype(&set(vec![vel(0.0, 0.0, 0.0), pos(0.0, 0.0, 0.0)]).ty())
        .expect("(Pos, Vel) archetype wasn't created!")
        .chunks()
        .len();

    println!("spawned {} entities over {} chunks", N, chunks);
}

#[test]
fn spawn_cmp() {
    let mut scene = Scene::default();

    let _ = scene.spawn(ComponentSet::empty());
    let _ = scene.spawn(set(vec![pos(0.0, 1.0, 27.0), vel(0.0, -9.8, 0.0)]));
    let _ = scene.spawn(set(vec![pos(1.0, -5.0, -2.0), vel(10.0, 1.2, 5.3)]));
    let _ = scene.spawn(set(vec![
        pos(10.0, 10.0, 10.0),
        vel(5.0, 5.0, 5.0),
        name("Entity#3"),
    ]));

    let pos_vel = scene
        .archetype(&set(vec![pos(0.0, 0.0, 0.0), vel(0.0, 0.0, 0.0)]).ty())
        .expect("(Pos, Vel) archetype wasn't created!");
    let pos_vel_chunk = pos_vel
        .chunks()
        .first()
        .expect("(Pos, Vel) archetype has no chunks!");

    println!("(Pos, Vel) -> Ent: {:?}", pos_vel_chunk.entities());

    let pos_vel_name = scene
        .archetype(&set(vec![pos(0.0, 0.0, 0.0), vel(0.0, 0.0, 0.0), name("")]).ty())
        .expect("(Pos, Vel, Name) archetype wasn't created!");
    let pos_vel_name_chunk = pos_vel_name
        .chunks()
        .first()
        .expect("(Pos, Vel, Name) archetype has no chunks!");

    println!("(Pos, Vel, Name) -> Ent: {:?}", pos_vel_name_chunk.entities());
}

// note: this test might fail on some platforms due to floating point (in)equality
#[test]
fn spawn_then_get() {
    let mut scene = Scene::default();

    let ent0 = scene.spawn(ComponentSet::empty());
    let ent1 = scene.spawn(set(vec![pos(0.0, 1.0, 27.0), vel(0.0, -9.8, 0.0)]));
    let ent2 = scene.spawn(set(vec![pos(1.0, -5.0, -2.0), vel(10.0, 1.2, 5.3)]));
    let ent3 = scene.spawn(set(vec![
        pos(10.0, 10.0, 10.0),
        vel(5.0, 5.0, 5.0),
        name("Entity#3"),
    ]));

    let pos_id = pos_meta().id();
    let vel_id = vel_meta().id();
    let name_id = name_meta().id();

    assert_eq!(scene.get(ent0, pos_id), None);
    assert_eq!(scene.get(ent0, vel_id), None);
    assert_eq!(scene.get(ent0, name_id), None);

    assert_eq!(scene.get(ent1, pos_id), Some(vec3_bytes(0.0, 1.0, 27.0)));
    assert_eq!(scene.get(ent1, vel_id), Some(vec3_bytes(0.0, -9.8, 0.0)));
    assert_eq!(scene.get(ent1, name_id), None);

    assert_eq!(scene.get(ent2, pos_id), Some(vec3_bytes(1.0, -5.0, -2.0)));
    assert_eq!(scene.get(ent2, vel_id), Some(vec3_bytes(10.0, 1.2, 5.3)));
    assert_eq!(scene.get(ent2, name_id), None);

    assert_eq!(scene.get(ent3, pos_id), Some(vec3_bytes(10.0, 10.0, 10.0)));
    assert_eq!(scene.get(ent3, vel_id), Some(vec3_bytes(5.0, 5.0, 5.0)));
    assert_eq!(scene.get(ent3, name_id), Some(name("Entity#3").bytes));

    // mutate the component in place
    {
        let wrote = scene.set(ent1, &pos(600.0, 1.0, 500.0));
        assert!(wrote, "can't get Pos mutably for ent1");
    }
    assert_eq!(scene.get(ent1, pos_id), Some(vec3_bytes(600.0, 1.0, 500.0)));

    assert_eq!(scene.get(ent0, pos_id), None);
    assert_eq!(scene.get(ent2, pos_id), Some(vec3_bytes(1.0, -5.0, -2.0)));
    assert_eq!(scene.get(ent3, pos_id), Some(vec3_bytes(10.0, 10.0, 10.0)));
}
