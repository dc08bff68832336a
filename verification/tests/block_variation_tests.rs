use polycubes::block_arrangement::block_variation::VariationGenerator;
use polycubes::block_arrangement::BlockArrangement;
use polycubes::block_hash::BlockHash;
use polycubes::point::Point3D;

#[test]
fn test_single_variations() {
    let block = BlockArrangement::new();
    let mut gen = VariationGenerator::new(&block);
    let mut variations: Vec<BlockArrangement> = Vec::new();
    while let Some(v) = gen.next() {
        variations.push(v);
    }
    let expected_len = 6;
    assert_eq!(expected_len, variations.len());
    let mut distinct: Vec<BlockArrangement> = Vec::new();
    for v in variations.into_iter() {
        if !distinct.iter().any(|d| *d == v) {
            distinct.push(v);
        }
    }
    assert_eq!(1, distinct.len())
}

#[test]
fn test_double_variations() {
    let mut block = BlockArrangement::new();
    block.add_block_at(&Point3D::new(1, 0, 0)).expect("Save placement");
    let mut gen = VariationGenerator::new(&block);
    let mut variations: Vec<(BlockHash, BlockArrangement)> = Vec::new();
    while let Some(v) = gen.next() {
        variations.push((BlockHash::from(&v), v));
    }
    let expected_len = 10;
    assert_eq!(expected_len, variations.len());
    let mut distinct: Vec<BlockArrangement> = Vec::new();
    for (_, v) in variations.into_iter() {
        if !distinct.iter().any(|d| *d == v) {
            distinct.push(v);
        }
    }
    assert_eq!(2, distinct.len(), "Number of unique shapes does not match expected amount")
}

#[test]
fn test_triple_l_variation() {
    let mut block = BlockArrangement::new();
    block.add_block_at(&Point3D::new(1, 0, 0)).expect("Save placement");
    block.add_block_at(&Point3D::new(0, 1, 0)).expect("Save placement");
    let mut gen = VariationGenerator::new(&block);
    let mut variations: Vec<BlockArrangement> = Vec::new();
    while let Some(v) = gen.next() {
        variations.push(v);
    }
    let expected_len = 13;
    assert_eq!(expected_len, variations.len());
}
