use polycubes::block_arrangement::{BlockArrangement, PlacementError};
use polycubes::orientation::{Orientation, OrientationIterator, RotationAmount};
use polycubes::point::{Axis3D, Point3D};

#[test]
fn test_num_blocks() {
    let mut blocks = BlockArrangement::new();
    assert_eq!(1, blocks.num_blocks());
    blocks.add_block_at(&Point3D::new(1, 0, 0)).expect("Checked coordinates.");
    assert_eq!(2, blocks.num_blocks());
    blocks.add_block_at(&Point3D::new(2, 0, 0)).expect("Checked coordinates.");
    assert_eq!(3, blocks.num_blocks());
    assert!(blocks.has_neighbors(&Point3D::new(2, 0, 0)));
    blocks.add_block_at(&Point3D::new(2, 0, 0)).expect("Checked coordinates.");
    assert_eq!(3, blocks.num_blocks());
}

#[test]
fn test_is_set() {
    let mut blocks = BlockArrangement::new();
    assert!(blocks.is_set(&Point3D::new(0, 0, 0)));
    let p = Point3D::new(1, 0, 0);
    blocks.add_block_at(&p).expect("Checked coordinates.");
    assert!(blocks.is_set(&p));
    let p = Point3D::new(2, 0, 0);
    blocks.add_block_at(&p).expect("Checked coordinates.");
    assert!(blocks.is_set(&p));
    let p = Point3D::new(0, 0, -1);
    blocks.add_block_at(&p).expect("Checked coordinates.");
    assert!(blocks.is_set(&p));
    let p = Point3D::new(0, -1, -1);
    blocks.add_block_at(&p).expect("Checked coordinates.");
    assert!(blocks.is_set(&p));
    let p = Point3D::new(0, -1, 0);
    blocks.add_block_at(&p).expect("Checked coordinates.");
    assert!(blocks.is_set(&p));
}

#[test]
fn test_block_itr() {
    let mut blocks = BlockArrangement::new();
    let p = Point3D::new(1, 0, 0);
    blocks.add_block_at(&p).expect("Checked coordinates.");
    let p = Point3D::new(2, 0, 0);
    blocks.add_block_at(&p).expect("Checked coordinates.");
    let p = Point3D::new(0, 0, -1);
    blocks.add_block_at(&p).expect("Checked coordinates.");
    let p = Point3D::new(0, -1, -1);
    blocks.add_block_at(&p).expect("Checked coordinates.");
    let p = Point3D::new(0, -1, 0);
    blocks.add_block_at(&p).expect("Checked coordinates.");
    blocks.block_iter().iter().for_each(|p| assert!(blocks.is_set(p)))
}

#[test]
fn test_is_set_relative_to_center_of_mass() {
    let mut blocks = BlockArrangement::new();
    let p = Point3D::new(1, 0, 0);
    blocks.add_block_at(&p).expect("Checked coordinates.");
    let p = Point3D::new(2, 0, 0);
    blocks.add_block_at(&p).expect("Checked coordinates.");
    let p = Point3D::new(0, 0, -1);
    blocks.add_block_at(&p).expect("Checked coordinates.");
    let p = Point3D::new(0, -1, -1);
    blocks.add_block_at(&p).expect("Checked coordinates.");
    let p = Point3D::new(0, -1, 0);
    blocks.add_block_at(&p).expect("Checked coordinates.");
    blocks.center_mass_iter().iter().for_each(|p| assert!(blocks.is_set_relative_to_center_of_mass(p)))
}

#[test]
fn test_block_itr_with_orientation() {
    let mut blocks = BlockArrangement::new();
    let p = Point3D::new(1, 0, 0);
    blocks.add_block_at(&p).expect("Checked coordinates.");
    let p = Point3D::new(2, 0, 0);
    blocks.add_block_at(&p).expect("Checked coordinates.");
    let p = Point3D::new(0, 0, -1);
    blocks.add_block_at(&p).expect("Checked coordinates.");
    let p = Point3D::new(0, -1, -1);
    blocks.add_block_at(&p).expect("Checked coordinates.");
    let p = Point3D::new(0, -1, 0);
    blocks.add_block_at(&p).expect("Checked coordinates.");
    let mut o = blocks.orientation();
    o.mirror(Axis3D::X);
    o.rotate(Axis3D::Y, RotationAmount::Ninety);
    blocks.set_orientation(o);
    blocks.block_iter().iter().for_each(|p| assert!(blocks.is_set(p)))
}

#[test]
fn test_is_set_relative_to_center_of_mass_with_orientation() {
    let mut blocks = BlockArrangement::new();
    let p = Point3D::new(1, 0, 0);
    blocks.add_block_at(&p).expect("Checked coordinates.");
    let p = Point3D::new(2, 0, 0);
    blocks.add_block_at(&p).expect("Checked coordinates.");
    let p = Point3D::new(0, 0, -1);
    blocks.add_block_at(&p).expect("Checked coordinates.");
    let p = Point3D::new(0, -1, -1);
    blocks.add_block_at(&p).expect("Checked coordinates.");
    let p = Point3D::new(0, -1, 0);
    blocks.add_block_at(&p).expect("Checked coordinates.");
    let mut o = blocks.orientation();
    o.mirror(Axis3D::X);
    o.rotate(Axis3D::Y, RotationAmount::Ninety);
    blocks.set_orientation(o);
    blocks.center_mass_iter().iter().for_each(|p| assert!(blocks.is_set_relative_to_center_of_mass(p)))
}

#[test]
fn test_x_mirroring() {
    let mut blocks = BlockArrangement::new();
    blocks.add_block_at(&Point3D::new(1, 0, 0)).expect("Checked coordinates.");
    blocks.add_block_at(&Point3D::new(2, 0, 0)).expect("Checked coordinates.");
    let mut o = blocks.orientation();
    o.mirror(Axis3D::X);
    blocks.set_orientation(o);
    assert!(!blocks.is_set(&Point3D::new(1, 0, 0)));
    assert!(blocks.is_set(&Point3D::new(0, 0, 0)));
    assert!(blocks.is_set(&Point3D::new(-1, 0, 0)));
    assert!(blocks.is_set(&Point3D::new(-2, 0, 0)));
}

#[test]
fn test_eq_with_every_orientation_variant() {
    let mut blocks = BlockArrangement::new();
    blocks.add_block_at(&Point3D::new(1, 0, 0)).expect("Checked coordinates.");
    blocks.add_block_at(&Point3D::new(2, 0, 0)).expect("Checked coordinates.");
    blocks.add_block_at(&Point3D::new(3, 0, 0)).expect("Checked coordinates.");
    blocks.add_block_at(&Point3D::new(3, 1, 0)).expect("Checked coordinates.");
    blocks.add_block_at(&Point3D::new(3, 0, 1)).expect("Checked coordinates.");
    let mut clone = blocks.clone();
    let mut it = OrientationIterator::default();
    let mut index = 0;
    while let Some(orientation) = it.next() {
        clone.set_orientation(orientation);
        assert_eq!(blocks, clone, "Blocks do not equal at index {index} with orientation {orientation:?}");
        index += 1;
    }
}

#[test]
fn test_eq_with_x_mir() {
    let mut blocks = BlockArrangement::new();
    blocks.add_block_at(&Point3D::new(1, 0, 0)).expect("Checked coordinates.");
    blocks.add_block_at(&Point3D::new(2, 0, 0)).expect("Checked coordinates.");
    blocks.add_block_at(&Point3D::new(3, 0, 0)).expect("Checked coordinates.");
    blocks.add_block_at(&Point3D::new(3, 1, 0)).expect("Checked coordinates.");
    blocks.add_block_at(&Point3D::new(3, 0, 1)).expect("Checked coordinates.");
    let mut clone = blocks.clone();
    let mut o = Orientation::default();
    o.mirror(Axis3D::X);
    clone.set_orientation(o);
    assert_eq!(blocks, clone);
}

#[test]
fn test_eq_with_y_mir() {
    let mut blocks = BlockArrangement::new();
    blocks.add_block_at(&Point3D::new(0, 1, 0)).expect("Checked coordinates.");
    blocks.add_block_at(&Point3D::new(0, 2, 0)).expect("Checked coordinates.");
    blocks.add_block_at(&Point3D::new(0, 3, 0)).expect("Checked coordinates.");
    blocks.add_block_at(&Point3D::new(1, 3, 0)).expect("Checked coordinates.");
    blocks.add_block_at(&Point3D::new(0, 3, 1)).expect("Checked coordinates.");
    let mut clone = blocks.clone();
    let mut o = Orientation::default();
    o.mirror(Axis3D::X);
    clone.set_orientation(o);
    assert_eq!(blocks, clone);
}

#[test]
fn test_eq_with_z_mir() {
    let mut blocks = BlockArrangement::new();
    blocks.add_block_at(&Point3D::new(0, 0, 1)).expect("Checked coordinates.");
    blocks.add_block_at(&Point3D::new(0, 0, 2)).expect("Checked coordinates.");
    blocks.add_block_at(&Point3D::new(0, 0, 3)).expect("Checked coordinates.");
    blocks.add_block_at(&Point3D::new(1, 0, 3)).expect("Checked coordinates.");
    blocks.add_block_at(&Point3D::new(0, 1, 3)).expect("Checked coordinates.");
    let mut clone = blocks.clone();
    let mut o = Orientation::default();
    o.mirror(Axis3D::X);
    clone.set_orientation(o);
    assert_eq!(blocks, clone);
}

#[test]
fn test_eq_with_x_rot() {
    let mut blocks = BlockArrangement::new();
    blocks.add_block_at(&Point3D::new(1, 0, 0)).expect("Checked coordinates.");
    blocks.add_block_at(&Point3D::new(2, 0, 0)).expect("Checked coordinates.");
    blocks.add_block_at(&Point3D::new(3, 0, 0)).expect("Checked coordinates.");
    blocks.add_block_at(&Point3D::new(3, 1, 0)).expect("Checked coordinates.");
    blocks.add_block_at(&Point3D::new(3, 0, 1)).expect("Checked coordinates.");
    let mut clone = blocks.clone();
    let mut o = Orientation::default();
    o.rotate(Axis3D::X, RotationAmount::Ninety);
    clone.set_orientation(o);
    assert_eq!(blocks, clone);
    o.rotate(Axis3D::X, RotationAmount::Ninety);
    clone.set_orientation(o);
    assert_eq!(blocks, clone);
    o.rotate(Axis3D::X, RotationAmount::Ninety);
    clone.set_orientation(o);
    assert_eq!(blocks, clone);
    o.rotate(Axis3D::X, RotationAmount::Ninety);
    clone.set_orientation(o);
    assert_eq!(blocks, clone);
}

#[test]
fn test_eq_with_y_rot() {
    let mut blocks = BlockArrangement::new();
    blocks.add_block_at(&Point3D::new(1, 0, 0)).expect("Checked coordinates.");
    blocks.add_block_at(&Point3D::new(2, 0, 0)).expect("Checked coordinates.");
    blocks.add_block_at(&Point3D::new(3, 0, 0)).expect("Checked coordinates.");
    blocks.add_block_at(&Point3D::new(3, 1, 0)).expect("Checked coordinates.");
    blocks.add_block_at(&Point3D::new(3, 0, 1)).expect("Checked coordinates.");
    let mut clone = blocks.clone();
    let mut o = Orientation::default();
    o.rotate(Axis3D::Y, RotationAmount::Ninety);
    clone.set_orientation(o);
    assert_eq!(blocks, clone);
    o.rotate(Axis3D::Y, RotationAmount::Ninety);
    clone.set_orientation(o);
    assert_eq!(blocks, clone);
    o.rotate(Axis3D::Y, RotationAmount::Ninety);
    clone.set_orientation(o);
    assert_eq!(blocks, clone);
    o.rotate(Axis3D::Y, RotationAmount::Ninety);
    clone.set_orientation(o);
    assert_eq!(blocks, clone);
}

#[test]
fn test_eq_with_z_rot() {
    let mut blocks = BlockArrangement::new();
    blocks.add_block_at(&Point3D::new(1, 0, 0)).expect("Checked coordinates.");
    blocks.add_block_at(&Point3D::new(2, 0, 0)).expect("Checked coordinates.");
    blocks.add_block_at(&Point3D::new(3, 0, 0)).expect("Checked coordinates.");
    blocks.add_block_at(&Point3D::new(3, 1, 0)).expect("Checked coordinates.");
    blocks.add_block_at(&Point3D::new(3, 0, 1)).expect("Checked coordinates.");
    let mut clone = blocks.clone();
    let mut o = Orientation::default();
    o.rotate(Axis3D::Z, RotationAmount::Ninety);
    clone.set_orientation(o);
    assert_eq!(blocks, clone);
    o.rotate(Axis3D::Z, RotationAmount::Ninety);
    clone.set_orientation(o);
    assert_eq!(blocks, clone);
    o.rotate(Axis3D::Z, RotationAmount::Ninety);
    clone.set_orientation(o);
    assert_eq!(blocks, clone);
    o.rotate(Axis3D::Z, RotationAmount::Ninety);
    clone.set_orientation(o);
    assert_eq!(blocks, clone);
}

#[test]
fn test_multiple_rotations_xy() {
    let mut blocks = BlockArrangement::new();
    blocks.add_block_at(&Point3D::new(1, 0, 0)).expect("Checked coordinates.");
    blocks.add_block_at(&Point3D::new(2, 0, 0)).expect("Checked coordinates.");
    blocks.add_block_at(&Point3D::new(3, 0, 0)).expect("Checked coordinates.");
    blocks.add_block_at(&Point3D::new(3, 1, 0)).expect("Checked coordinates.");
    blocks.add_block_at(&Point3D::new(3, 0, 1)).expect("Checked coordinates.");
    let mut clone = blocks.clone();
    let mut o = Orientation::default();
    o.rotate(Axis3D::X, RotationAmount::Ninety);
    clone.set_orientation(o);
    assert_eq!(blocks, clone);
    o.rotate(Axis3D::Y, RotationAmount::Ninety);
    clone.set_orientation(o);
    assert_eq!(blocks, clone, "Blocks do not equal.");
    o.rotate(Axis3D::X, RotationAmount::Ninety);
    clone.set_orientation(o);
    assert_eq!(blocks, clone);
    o.rotate(Axis3D::Y, RotationAmount::Ninety);
    clone.set_orientation(o);
    assert_eq!(blocks, clone);
}

#[test]
fn block_arrangement_test_serde() {
    let block = BlockArrangement::new();
    let mut ser: Vec<u8> = Vec::new();
    block.encode(&mut ser);
    let (new_block, _) = BlockArrangement::decode(&ser, 0)
        .expect("Expecting successful deserialization.");
    assert_eq!(block, new_block);
}

#[test]
fn test_serde_larger_shape() {
    let mut block = BlockArrangement::new();
    block.add_block_at(&Point3D::new(1, 0, 0)).expect("Checked coordinates.");
    block.add_block_at(&Point3D::new(1, 1, 0)).expect("Checked coordinates.");
    block.add_block_at(&Point3D::new(1, 1, -1)).expect("Checked coordinates.");
    let mut ser: Vec<u8> = Vec::new();
    block.encode(&mut ser);
    let (new_block, used) = BlockArrangement::decode(&ser, 0)
        .expect("Expecting successful deserialization.");
    assert_eq!(ser.len(), used);
    assert_eq!(block, new_block);
    assert_eq!(block.num_blocks(), new_block.num_blocks());
    assert_eq!(block.center_of_mass(), new_block.center_of_mass());
}

#[test]
fn test_decode_rejects_garbage() {
    assert!(BlockArrangement::decode(&Vec::new(), 0).is_none());
    let junk: Vec<u8> = vec![7; 10];
    assert!(BlockArrangement::decode(&junk, 0).is_none());
}

#[test]
fn test_add_not_adjacent_fails() {
    let mut blocks = BlockArrangement::new();
    let r = blocks.add_block_at(&Point3D::new(3, 3, 3));
    assert_eq!(Err(PlacementError::NotAdjacentToBlock), r);
    assert_eq!(1, blocks.num_blocks());
    assert!(!blocks.is_set(&Point3D::new(3, 3, 3)));
}

#[test]
fn test_center_of_mass_two_blocks() {
    let mut blocks = BlockArrangement::new();
    blocks.add_block_at(&Point3D::new(1, 0, 0)).expect("Checked coordinates.");
    assert_eq!(Point3D::new(0, 0, 0), blocks.center_of_mass());
    blocks.add_block_at(&Point3D::new(2, 0, 0)).expect("Checked coordinates.");
    assert_eq!(Point3D::new(1, 0, 0), blocks.center_of_mass());
}
