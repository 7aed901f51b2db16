use ezgame::{ComponentSet, EntityLocation, EntityMap, Scene};

#[test]
fn entity_loc_one_chunk() {
    let mut scene = Scene::default();
    let mut map = EntityMap::default();

    let ent = scene.spawn(ComponentSet::empty());

    map.insert(ent, EntityLocation::new(1, 0, 0));

    println!("{} is at {:?}", ent.id(), map.get(ent));

    println!("removing location for {}", ent.id());
    map.remove(ent);

    println!("{} is now at {:?}", ent.id(), map.get(ent));
    println!("map should be empty(no chunks): {:?}", map);
}

#[test]
fn entity_loc_more_chunks() {
    let mut scene = Scene::default();
    let mut map = EntityMap::default();

    for i in 0..64 {
        let e = scene.spawn(ComponentSet::empty());

        map.insert(e, EntityLocation::new(1, 0, i));

        println!("{} is at {:?}", e.id(), map.get(e));
    }
}
