//! tests the component descriptors

use ezgame::{CmpId, CmpMeta};

// three zero-or-small unit-like component types with host-assigned ids
fn cmp_a_id() -> CmpId {
    CmpId::from_u64(1)
}

fn cmp_b_id() -> CmpId {
    CmpId::from_u64(2)
}

fn cmp_c_id() -> CmpId {
    CmpId::from_u64(3)
}

#[test]
fn assert_unique_id() {
    let a = cmp_a_id();
    let b = cmp_b_id();
    let c = cmp_c_id();

    println!("a: {:?}, b: {:?}, c: {:?}", a, b, c);

    assert_ne!(a, b, "a~b IDs conflicted");
    assert_ne!(a, c, "a~c IDs conflicted");
    assert_ne!(c, b, "c~b IDs conflicted");
}

#[test]
fn print_meta() {
    println!("a: {:?}", CmpMeta::new(cmp_a_id(), 1, 1));
    println!("b: {:?}", CmpMeta::new(cmp_b_id(), 1, 1));
    println!("c: {:?}", CmpMeta::new(cmp_c_id(), 8, 4));
}
