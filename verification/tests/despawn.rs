use ezgame::{CmpData, CmpId, CmpMeta, ComponentSet, Entity, Scene};

// Pos and Vel are 12-byte, 4-aligned components of three integers.
fn pos_meta() -> CmpMeta {
    CmpMeta::new(CmpId::from_u64(1), 12, 4)
}

fn vel_meta() -> CmpMeta {
    CmpMeta::new(CmpId::from_u64(2), 12, 4)
}

fn vec3_bytes(x: i32, y: i32, z: i32) -> Vec<u8> {
    let mut b = Vec::new();
    b.extend_from_slice(&x.to_le_bytes());
    b.extend_from_slice(&y.to_le_bytes());
    b.extend_from_slice(&z.to_le_bytes());
    b
}

fn pos(x: i32, y: i32, z: i32) -> CmpData {
    CmpData { meta: pos_meta(), bytes: vec3_bytes(x, y, z) }
}

fn vel(x: i32, y: i32, z: i32) -> CmpData {
    CmpData { meta: vel_meta(), bytes: vec3_bytes(x, y, z) }
}

fn set(items: Vec<CmpData>) -> ComponentSet {
    ComponentSet::new(items).unwrap()
}

#[test]
fn despawn() {
    fn print_pos_vel(scene: &Scene) {
        let chunk = scene
            .archetype(&set(vec![pos(0, 0, 0), vel(0, 0, 0)]).ty())
            .expect("(Pos, Vel) archetype wasn't created!")
            .chunks()
            .first()
            .expect("(Pos, Vel) archetype doesn't have chunks!");

        println!("Ent: {:?}", chunk.entities());
    }

    let mut scene = Scene::default();

    /* test with one entity */
    let ent0 = scene.spawn(set(vec![pos(1, 2, 3), vel(9, 8, 7)]));

    // spawn
    assert!(scene.contains(ent0), "entity#0 wasn't spawned!");
    println!("spawned an entity#0 with Pos(1, 2, 3) and Vel(9, 8, 7)");

    // print
    print_pos_vel(&scene);

    // despawn
    assert!(scene.despawn(ent0), "entity#0 despawn returned false!");

    assert!(!scene.contains(ent0), "entity#0 wasn't despawned!");
    println!("despawned entity#0 with Pos(1, 2, 3) and Vel(9, 8, 7)");

    // print
    print_pos_vel(&scene);

    /* test with two entities */
    let ent1 = scene.spawn(set(vec![pos(-1, -2, -3), vel(5, -10, 18)]));
    let ent2 = scene.spawn(set(vec![pos(2, 4, 47), vel(0, 1, -6)]));

    // spawn
    assert!(scene.contains(ent1), "entity#1 wasn't spawned!");
    assert!(scene.contains(ent2), "entity#2 wasn't spawned!");
    println!(
        "spawned entity#1 {{ Pos(-1, -2, -3), Vel(5, -10, 18) }} and entity#2 {{ Pos(2, 4, 47), Vel(0, 1, -6) }}"
    );

    // print
    print_pos_vel(&scene);

    // despawn
    assert!(!scene.despawn(ent0), "was able to despawn entity#0 twice!");
    assert!(scene.despawn(ent1), "entity#1 despawn returned false!");

    assert!(!scene.contains(ent1), "entity#1 wasn't dispawned!");
    println!("despawned entity#1 {{ Pos(-1, -2, -3), Vel(5, -10, 18) }}");

    // print
    print_pos_vel(&scene);

    // make sure ent2 was moved correctly
    assert_eq!(
        scene.get(ent2, pos_meta().id()),
        Some(vec3_bytes(2, 4, 47)),
        "entity#2's Pos wasn't moved properly"
    );
    assert_eq!(
        scene.get(ent2, vel_meta().id()),
        Some(vec3_bytes(0, 1, -6)),
        "entity#2's Vel wasn't moved properly"
    );
}

#[test]
fn despawn_many() {
    const N: u64 = 100_000;

    let mut scene = Scene::default();

    for _ in 0..N {
        scene.spawn(set(vec![pos(0, 0, 0), vel(0, 0, 0)]));
    }
    let chunks = scene
        .archetype(&set(vec![vel(0, 0, 0), pos(0, 0, 0)]).ty())
        .expect("(Pos, Vel) archetype wasn't created!")
        .chunks()
        .len();

    println!("spawned {} entities over {} chunks", N, chunks);

    for id in 0..N {
        scene.despawn(Entity::from_id(id));
    }

    let chunks = scene
        .archetype(&set(vec![vel(0, 0, 0), pos(0, 0, 0)]).ty())
        .expect("(Pos, Vel) archetype wasn't created!")
        .chunks()
        .len();

    println!("archetype has {} chunks left", chunks);
}
