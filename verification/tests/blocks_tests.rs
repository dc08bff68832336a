use polycubes::block_arrangement::BlockArrangement;
use polycubes::point::{Axis3D, Point3D};

#[test]
fn blocks_test_num_blocks() {
    let mut blocks = BlockArrangement::new();
    assert_eq!(1, blocks.num_blocks());
    blocks.add_block_at(&Point3D::new(1, 0, 0)).expect("Checked coordinates.");
    assert_eq!(2, blocks.num_blocks());
    blocks.add_block_at(&Point3D::new(2, 0, 0)).expect("Checked coordinates.");
    assert_eq!(3, blocks.num_blocks());
    blocks.add_block_at(&Point3D::new(2, 0, 0)).expect("Checked coordinates.");
    assert_eq!(3, blocks.num_blocks());
}

#[test]
fn blocks_test_is_set() {
    let mut blocks = BlockArrangement::new();
    assert!(blocks.is_set(&Point3D::new(0, 0, 0)));
    let p = Point3D::new(1, 0, 0);
    blocks.add_block_at(&p).expect("Checked coordinates.");
    assert!(blocks.is_set(&p));
    let p = Point3D::new(2, 0, 0);
    blocks.add_block_at(&p).expect("Checked coordinates.");
    assert!(blocks.is_set(&p));
    let p = Point3D::new(0, 0, -1);
    blocks.add_block_at(&p).expect("Checked coordinates.");
    assert!(blocks.is_set(&p));
    let p = Point3D::new(0, -1, -1);
    blocks.add_block_at(&p).expect("Checked coordinates.");
    assert!(blocks.is_set(&p));
    let p = Point3D::new(0, -1, 0);
    blocks.add_block_at(&p).expect("Checked coordinates.");
    assert!(blocks.is_set(&p));
}

#[test]
fn blocks_test_x_mirroring() {
    let mut blocks = BlockArrangement::new();
    blocks.add_block_at(&Point3D::new(1, 0, 0)).expect("Checked coordinates.");
    blocks.add_block_at(&Point3D::new(2, 0, 0)).expect("Checked coordinates.");
    let mut o = blocks.orientation();
    o.mirror(Axis3D::X);
    blocks.set_orientation(o);
    assert!(!blocks.is_set(&Point3D::new(1, 0, 0)));
    assert!(blocks.is_set(&Point3D::new(0, 0, 0)));
    assert!(blocks.is_set(&Point3D::new(-1, 0, 0)));
    assert!(blocks.is_set(&Point3D::new(-2, 0, 0)));
}
