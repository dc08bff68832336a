use std::collections::HashSet;
use polycubes::orientation::{Orientation, OrientationIterator, RotationAmount};
use polycubes::point::Axis3D;

#[test]
fn test_iter() {
    let mut itr = OrientationIterator::default();
    let mut set: HashSet<Orientation> = HashSet::new();
    while let Some(o) = itr.next() {
        set.insert(o);
    }
    assert_eq!(512, set.len());
}

#[test]
fn test_rotation_amount_add_sub() {
    assert_eq!(RotationAmount::OneEighty, RotationAmount::Ninety.add(RotationAmount::Ninety));
    assert_eq!(RotationAmount::Zero, RotationAmount::Ninety.add(RotationAmount::TwoSeventy));
    assert_eq!(RotationAmount::TwoSeventy, RotationAmount::Zero.sub(RotationAmount::Ninety));
    assert_eq!(RotationAmount::TwoSeventy, RotationAmount::Ninety.inverse());
    assert_eq!(RotationAmount::Zero, RotationAmount::Zero.inverse());
}

#[test]
fn test_additive_complement() {
    let mut o = Orientation::default();
    o.rotate(Axis3D::X, RotationAmount::Ninety);
    o.rotate(Axis3D::Y, RotationAmount::OneEighty);
    o.mirror(Axis3D::Z);
    let c = o.additive_complement();
    assert_eq!(Orientation::default(), o.add(c));
}
