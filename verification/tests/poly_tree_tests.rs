use polycubes::block_arrangement::BlockArrangement;
use polycubes::point::Point3D;
use polycubes::poly_tree::PolyTree;

#[test]
fn test_creation() {
    let _tree = PolyTree::default();
    let _tree = PolyTree::new();
}

#[test]
fn test_add_contains_1() {
    let block = BlockArrangement::new();
    let mut tree = PolyTree::default();
    assert!(!tree.contains(&block));
    assert!(!tree.put(block.clone()));
    assert!(tree.contains(&block));
}

#[test]
fn test_size_same() {
    let block = BlockArrangement::new();
    let mut tree = PolyTree::default();
    assert_eq!(0, tree.size());
    tree.put(block.clone());
    assert_eq!(1, tree.size());
    tree.put(block.clone());
    assert_eq!(1, tree.size());
    let mut block = block;
    block.add_block_at(&Point3D::new(1, 0, 0))
        .expect("Expected save adding.");
    tree.put(block.clone());
    assert_eq!(2, tree.size());
    tree.put(block.clone());
    assert_eq!(2, tree.size());
}
