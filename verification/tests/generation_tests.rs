use polycubes::generation::{
    calc_num_of_unique_arrangements, generate_increased_variations_from_cache, LevelMap,
};

#[test]
fn test_unique_arrangements_of_one() {
    assert_eq!(1, calc_num_of_unique_arrangements(1));
}

#[test]
fn test_unique_arrangements_small_sizes() {
    assert_eq!(1, calc_num_of_unique_arrangements(2));
    assert_eq!(2, calc_num_of_unique_arrangements(3));
}

#[test]
fn test_unique_arrangements_of_four() {
    // Mirror reflections belong to the orientation group, so the two chiral
    // screw shapes count as one: seven distinct shapes of four cubes.
    assert_eq!(7, calc_num_of_unique_arrangements(4));
}

#[test]
fn test_equality_classes_of_four() {
    let mut m = LevelMap::unit();
    let mut k = 1;
    while k < 4 {
        m = generate_increased_variations_from_cache(&m);
        k += 1;
    }
    let reps = m.representatives();
    let mut distinct: Vec<polycubes::block_arrangement::BlockArrangement> = Vec::new();
    for v in reps.into_iter() {
        if !distinct.iter().any(|d| *d == v) {
            distinct.push(v);
        }
    }
    assert_eq!(7, distinct.len());
}

#[test]
fn test_level_map_growth() {
    let unit = LevelMap::unit();
    assert_eq!(1, unit.level());
    assert_eq!(1, unit.len());
    let two = generate_increased_variations_from_cache(&unit);
    assert_eq!(2, two.level());
    assert_eq!(1, two.len());
    let three = generate_increased_variations_from_cache(&two);
    assert_eq!(3, three.level());
    assert_eq!(2, three.len());
}

#[test]
fn test_level_map_record_round_trip() {
    let mut m = LevelMap::unit();
    m = generate_increased_variations_from_cache(&m);
    m = generate_increased_variations_from_cache(&m);
    let bytes = m.encode();
    let m2 = LevelMap::decode(&bytes).expect("Expecting save decoding.");
    assert_eq!(m.level(), m2.level());
    assert_eq!(m.len(), m2.len());
    let a = m.representatives();
    let b = m2.representatives();
    for k in 0..a.len() {
        assert_eq!(a[k], b[k]);
    }
}

#[test]
fn test_level_map_decode_rejects_garbage() {
    assert!(LevelMap::decode(&Vec::new()).is_none());
    let junk: Vec<u8> = vec![1, 9, 9, 9, 9, 7];
    assert!(LevelMap::decode(&junk).is_none());
}

#[test]
fn test_from_arrangements_validates() {
    let ba = polycubes::block_arrangement::BlockArrangement::new();
    let items = vec![ba];
    let m = LevelMap::from_arrangements(1, &items).expect("a valid single-shape level");
    assert_eq!(1, m.level());
    assert_eq!(1, m.len());
    assert!(LevelMap::from_arrangements(2, &m.representatives()).is_none());
    assert!(LevelMap::from_arrangements(0, &Vec::new()).is_none());
}
