use polycubes::mapper::Mapper;
use polycubes::point::Finite3DDimension;

#[test]
fn test_mapping_small() {
    let dim = Finite3DDimension::new(1, 1, 1, 1, 1, 1);
    let mapper = Mapper::new(dim);
    for i in 0..dim.size() as usize {
        let point = mapper.resolve(i).unwrap_or_else(|| panic!("Expected save resolving of index {i}"));
        assert!(dim.in_bounds(&point));
        let resolved_index = mapper.unresolve(point).unwrap_or_else(|| panic!("Expected save unresolve of point {point:?}"));
        assert_eq!(i, resolved_index, "The expected index of {i} was not converted back, but got {resolved_index} and point {point:?}")
    }
}

#[test]
fn test_mapping_medium() {
    let dim = Finite3DDimension::new(5, 3, 7, 9, 11, 13);
    let mapper = Mapper::new(dim);
    for i in 0..dim.size() as usize {
        let point = mapper.resolve(i).unwrap_or_else(|| panic!("Expected save resolving of index {i}"));
        assert!(dim.in_bounds(&point));
        let resolved_index = mapper.unresolve(point).unwrap_or_else(|| panic!("Expected save unresolve of point {point:?}"));
        assert_eq!(i, resolved_index, "The expected index of {i} was not converted back, but got {resolved_index} and point {point:?}")
    }
}

#[test]
fn test_mapping_large() {
    let dim = Finite3DDimension::new(10, 15, 18, 19, 13, 11);
    let mapper = Mapper::new(dim);
    for i in 0..dim.size() as usize {
        let point = mapper.resolve(i).unwrap_or_else(|| panic!("Expected save resolving of index {i}"));
        assert!(dim.in_bounds(&point));
        let resolved_index = mapper.unresolve(point).unwrap_or_else(|| panic!("Expected save unresolve of point {point:?}"));
        assert_eq!(i, resolved_index, "The expected index of {i} was not converted back, but got {resolved_index} and point {point:?}")
    }
}

#[test]
fn test_out_of_bounds_unresolve() {
    let dim = Finite3DDimension::new(1, 1, 1, 1, 1, 1);
    let mapper = Mapper::new(dim);
    assert_eq!(None, mapper.unresolve(polycubes::point::Point3D::new(2, 0, 0)));
    assert_eq!(None, mapper.resolve(dim.size() as usize));
}
