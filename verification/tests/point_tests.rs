use polycubes::orientation::{Orientation, OrientationIterator, RotationAmount};
use polycubes::point::{Axis3D, Finite3DDimension, Point3D};

#[test]
fn test_default_point() {
    let p = Point3D::default();
    assert_eq!(Point3D::new(0, 0, 0), p);
}

#[test]
fn test_mirroring() {
    let mut p = Point3D::new(1, 1, 1);
    p.mirror(Axis3D::X);
    assert_eq!(Point3D::new(-1, 1, 1), p);
    p.mirror(Axis3D::X);
    assert_eq!(Point3D::new(1, 1, 1), p);
    p.mirror(Axis3D::Y);
    assert_eq!(Point3D::new(1, -1, 1), p);
    p.mirror(Axis3D::Y);
    assert_eq!(Point3D::new(1, 1, 1), p);
    p.mirror(Axis3D::Z);
    assert_eq!(Point3D::new(1, 1, -1), p);
    p.mirror(Axis3D::Z);
    assert_eq!(Point3D::new(1, 1, 1), p);

    let mut p = Point3D::new(0, 0, 0);
    p.mirror(Axis3D::X);
    assert_eq!(Point3D::new(0, 0, 0), p);
    p.mirror(Axis3D::X);
    assert_eq!(Point3D::new(0, 0, 0), p);
    p.mirror(Axis3D::Y);
    assert_eq!(Point3D::new(0, 0, 0), p);
    p.mirror(Axis3D::Y);
    assert_eq!(Point3D::new(0, 0, 0), p);
    p.mirror(Axis3D::Z);
    assert_eq!(Point3D::new(0, 0, 0), p);
    p.mirror(Axis3D::Z);
    assert_eq!(Point3D::new(0, 0, 0), p);
}

#[test]
fn test_apply_inverse() {
    let p = Point3D::new(1, 2, 3);
    let mut p_clone = p;
    let mut orientation = Orientation::default();
    orientation.set_x_mir(true);
    orientation.set_y_mir(true);
    orientation.set_x_rot(RotationAmount::Ninety);
    orientation.set_z_rot(RotationAmount::TwoSeventy);
    p_clone.apply_orientation(&orientation);
    p_clone.apply_inverse_orientation(&orientation);
    assert_eq!(p, p_clone)
}

#[test]
fn test_apply_inverse_every_orientation() {
    let p = Point3D::new(4, -7, 2);
    let mut it = OrientationIterator::default();
    while let Some(orientation) = it.next() {
        let mut q = p;
        q.apply_orientation(&orientation);
        q.apply_inverse_orientation(&orientation);
        assert_eq!(p, q);
    }
}

#[test]
fn test_in_bounds() {
    let dim = Finite3DDimension::new(3, 3, 3, 3, 3, 3);
    for x in -3..4 {
        for y in -3..4 {
            for z in -3..4 {
                let p = Point3D::new(x, y, z);
                assert!(dim.in_bounds(&p), "In bounds check failed at point {p:?}")
            }
        }
    }
}

#[test]
fn test_axis_len_and_size() {
    let dim = Finite3DDimension::new(5, 3, 7, 9, 11, 13);
    assert_eq!(9, dim.axis_len(Axis3D::X));
    assert_eq!(17, dim.axis_len(Axis3D::Y));
    assert_eq!(25, dim.axis_len(Axis3D::Z));
    assert_eq!((9, 17, 25), dim.all_axis_len());
    assert_eq!(9 * 17 * 25, dim.size());
    assert!(!dim.dim_in_bounds(&Point3D::new(6, 0, 0), Axis3D::X));
    assert!(dim.dim_in_bounds(&Point3D::new(-3, 0, 0), Axis3D::X));
}
