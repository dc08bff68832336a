use polycubes::block_arrangement::BlockArrangement;
use polycubes::block_hash::BlockHash;
use polycubes::codec::{decode_hash, encode_hash};
use polycubes::orientation::OrientationIterator;
use polycubes::point::Point3D;

#[test]
fn test_orientation_hashing() {
    let mut block = BlockArrangement::new();
    block.add_block_at(&Point3D::new(1, 0, 0)).expect("Save adding");
    block.add_block_at(&Point3D::new(0, 1, 0)).expect("Save adding");
    let hash = BlockHash::from(&block);
    let mut it = OrientationIterator::default();
    while let Some(orientation) = it.next() {
        block.set_orientation(orientation);
        let oriented_hash = BlockHash::from(&block);
        assert_eq!(hash, oriented_hash)
    }
}

#[test]
fn block_hash_test_serde() {
    let mut block = BlockArrangement::new();
    block.add_block_at(&Point3D::new(1, 0, 0)).expect("Save adding");
    block.add_block_at(&Point3D::new(0, 1, 0)).expect("Save adding");
    let hash = BlockHash::from(&block);

    let mut serial: Vec<u8> = Vec::new();
    encode_hash(&hash, &mut serial);
    let (deser_hash, _) = decode_hash(&serial, 0).expect("Expecting save decoding.");
    assert_eq!(hash, deser_hash);
}

#[test]
fn test_fingerprint_exact_values() {
    let single = BlockArrangement::new();
    let h1 = BlockHash::from(&single);
    assert_eq!(1, h1.num_blocks());
    assert_eq!(0, h1.density());
    assert_eq!((0, 0, 0), h1.axis_alignments());

    let mut pair = BlockArrangement::new();
    pair.add_block_at(&Point3D::new(1, 0, 0)).expect("Save adding");
    let h2 = BlockHash::from(&pair);
    assert_eq!(2, h2.num_blocks());
    assert_eq!(50000, h2.density());
    assert_eq!((0, 0, 50000), h2.axis_alignments());
}
