use vstd::prelude::*;
use crate::orientation::{Orientation, RotationAmount};

verus! {

/// One of the three coordinate axes of the lattice.
#[derive(Debug, Copy, Clone, PartialEq, Eq, Structural)]
pub enum Axis3D {
    X,
    Y,
    Z,
}

/// Mathematical model of a lattice point: an unbounded integer triple.
/// All geometric reasoning is done on this type; `Point3D` is its
/// machine-sized realization.
pub struct PointView {
    pub x: int,
    pub y: int,
    pub z: int,
}

impl PointView {
    pub open spec fn plus(self, q: PointView) -> PointView {
        PointView { x: self.x + q.x, y: self.y + q.y, z: self.z + q.z }
    }

    pub open spec fn minus(self, q: PointView) -> PointView {
        PointView { x: self.x - q.x, y: self.y - q.y, z: self.z - q.z }
    }

    /// Negate the coordinate along `axis`.
    pub open spec fn mirrored(self, axis: Axis3D) -> PointView {
        match axis {
            Axis3D::X => PointView { x: -self.x, ..self },
            Axis3D::Y => PointView { y: -self.y, ..self },
            Axis3D::Z => PointView { z: -self.z, ..self },
        }
    }

    pub open spec fn mirrored_if(self, cond: bool, axis: Axis3D) -> PointView {
        if cond {
            self.mirrored(axis)
        } else {
            self
        }
    }

    /// One clockwise quarter turn of the two coordinates orthogonal to `axis`:
    /// the first of the pair becomes the negated second, the second becomes
    /// the old first.
    pub open spec fn rotated90(self, axis: Axis3D) -> PointView {
        match axis {
            Axis3D::X => PointView { x: self.x, y: -self.z, z: self.y },
            Axis3D::Y => PointView { x: -self.z, y: self.y, z: self.x },
            Axis3D::Z => PointView { x: -self.y, y: self.x, z: self.z },
        }
    }

    /// `amount / 90°` quarter turns around `axis`.
    pub open spec fn rotated(self, axis: Axis3D, amount: RotationAmount) -> PointView {
        match amount {
            RotationAmount::Zero => self,
            RotationAmount::Ninety => self.rotated90(axis),
            RotationAmount::OneEighty => self.rotated90(axis).rotated90(axis),
            RotationAmount::TwoSeventy => self.rotated90(axis).rotated90(axis).rotated90(axis),
        }
    }

    /// The full action of an orientation: mirrors for X, Y, Z in order,
    /// then rotations for X, Y, Z in order.
    pub open spec fn applied(self, o: Orientation) -> PointView {
        self.mirrored_if(o.x_mir, Axis3D::X)
            .mirrored_if(o.y_mir, Axis3D::Y)
            .mirrored_if(o.z_mir, Axis3D::Z)
            .rotated(Axis3D::X, o.x_rot)
            .rotated(Axis3D::Y, o.y_rot)
            .rotated(Axis3D::Z, o.z_rot)
    }

    /// Undoes `applied`: rotations in reverse order with inverted amounts,
    /// then the mirrors again in reverse order.
    pub open spec fn unapplied(self, o: Orientation) -> PointView {
        self.rotated(Axis3D::Z, o.z_rot.inverted())
            .rotated(Axis3D::Y, o.y_rot.inverted())
            .rotated(Axis3D::X, o.x_rot.inverted())
            .mirrored_if(o.z_mir, Axis3D::Z)
            .mirrored_if(o.y_mir, Axis3D::Y)
            .mirrored_if(o.x_mir, Axis3D::X)
    }

    /// Every coordinate multiplied by `n`.
    pub open spec fn scaled(self, n: int) -> PointView {
        PointView { x: n * self.x, y: n * self.y, z: n * self.z }
    }

    /// Squared Euclidean distance to the origin.
    pub open spec fn sq_norm(self) -> int {
        self.x * self.x + self.y * self.y + self.z * self.z
    }

    pub open spec fn coord(self, axis: Axis3D) -> int {
        match axis {
            Axis3D::X => self.x,
            Axis3D::Y => self.y,
            Axis3D::Z => self.z,
        }
    }

    /// All three coordinates have magnitude at most `b`.
    pub open spec fn bounded(self, b: int) -> bool {
        -b <= self.x <= b && -b <= self.y <= b && -b <= self.z <= b
    }
}

/// Rotating by an amount and then by its inverse restores the point.
pub proof fn lemma_rotate_then_inverse(p: PointView, axis: Axis3D, amount: RotationAmount)
    ensures
        p.rotated(axis, amount).rotated(axis, amount.inverted()) == p,
        p.rotated(axis, amount.inverted()).rotated(axis, amount) == p,
{
}

/// Applying an orientation and then undoing it restores the point,
/// for every one of the enumerable rotation/mirror combinations.
pub proof fn lemma_apply_then_unapply(p: PointView, o: Orientation)
    ensures
        p.applied(o).unapplied(o) == p,
{
    let m = p.mirrored_if(o.x_mir, Axis3D::X).mirrored_if(o.y_mir, Axis3D::Y).mirrored_if(
        o.z_mir,
        Axis3D::Z,
    );
    let r1 = m.rotated(Axis3D::X, o.x_rot);
    let r2 = r1.rotated(Axis3D::Y, o.y_rot);
    lemma_rotate_then_inverse(r2, Axis3D::Z, o.z_rot);
    lemma_rotate_then_inverse(r1, Axis3D::Y, o.y_rot);
    lemma_rotate_then_inverse(m, Axis3D::X, o.x_rot);
}

/// Undoing an orientation and then applying it restores the point.
pub proof fn lemma_unapply_then_apply(p: PointView, o: Orientation)
    ensures
        p.unapplied(o).applied(o) == p,
{
    let m = p.rotated(Axis3D::Z, o.z_rot.inverted()).rotated(
        Axis3D::Y,
        o.y_rot.inverted(),
    ).rotated(Axis3D::X, o.x_rot.inverted());
    let u = m.mirrored_if(o.z_mir, Axis3D::Z).mirrored_if(o.y_mir, Axis3D::Y).mirrored_if(
        o.x_mir,
        Axis3D::X,
    );
    let n = u.mirrored_if(o.x_mir, Axis3D::X).mirrored_if(o.y_mir, Axis3D::Y).mirrored_if(
        o.z_mir,
        Axis3D::Z,
    );
    assert(n == m);
    lemma_rotate_then_inverse(p.rotated(Axis3D::Z, o.z_rot.inverted()).rotated(
        Axis3D::Y,
        o.y_rot.inverted(),
    ), Axis3D::X, o.x_rot);
    lemma_rotate_then_inverse(p.rotated(Axis3D::Z, o.z_rot.inverted()), Axis3D::Y, o.y_rot);
    lemma_rotate_then_inverse(p, Axis3D::Z, o.z_rot);
}

/// A mirror or a rotation distributes over componentwise sums, differences
/// and integer scaling.
proof fn lemma_step_linear(
    u: PointView,
    v: PointView,
    n: int,
    axis: Axis3D,
    cond: bool,
    amount: RotationAmount,
)
    ensures
        u.minus(v).mirrored_if(cond, axis) == u.mirrored_if(cond, axis).minus(
            v.mirrored_if(cond, axis),
        ),
        u.minus(v).rotated(axis, amount) == u.rotated(axis, amount).minus(
            v.rotated(axis, amount),
        ),
        u.plus(v).mirrored_if(cond, axis) == u.mirrored_if(cond, axis).plus(
            v.mirrored_if(cond, axis),
        ),
        u.plus(v).rotated(axis, amount) == u.rotated(axis, amount).plus(v.rotated(axis, amount)),
        u.scaled(n).mirrored_if(cond, axis) == u.mirrored_if(cond, axis).scaled(n),
        u.scaled(n).rotated(axis, amount) == u.rotated(axis, amount).scaled(n),
{
    assert(n * (-u.x) == -(n * u.x) && n * (-u.y) == -(n * u.y) && n * (-u.z) == -(n * u.z))
        by (nonlinear_arith);
}

/// An orientation acts linearly: it distributes over componentwise sums,
/// differences and integer scaling.
pub proof fn lemma_applied_linear(u: PointView, v: PointView, n: int, o: Orientation)
    ensures
        u.minus(v).applied(o) == u.applied(o).minus(v.applied(o)),
        u.plus(v).applied(o) == u.applied(o).plus(v.applied(o)),
        u.scaled(n).applied(o) == u.applied(o).scaled(n),
{
    let u1 = u.mirrored_if(o.x_mir, Axis3D::X);
    let v1 = v.mirrored_if(o.x_mir, Axis3D::X);
    let u2 = u1.mirrored_if(o.y_mir, Axis3D::Y);
    let v2 = v1.mirrored_if(o.y_mir, Axis3D::Y);
    let u3 = u2.mirrored_if(o.z_mir, Axis3D::Z);
    let v3 = v2.mirrored_if(o.z_mir, Axis3D::Z);
    let u4 = u3.rotated(Axis3D::X, o.x_rot);
    let v4 = v3.rotated(Axis3D::X, o.x_rot);
    let u5 = u4.rotated(Axis3D::Y, o.y_rot);
    let v5 = v4.rotated(Axis3D::Y, o.y_rot);
    lemma_step_linear(u, v, n, Axis3D::X, o.x_mir, o.x_rot);
    lemma_step_linear(u1, v1, n, Axis3D::Y, o.y_mir, o.y_rot);
    lemma_step_linear(u2, v2, n, Axis3D::Z, o.z_mir, o.z_rot);
    lemma_step_linear(u3, v3, n, Axis3D::X, o.x_mir, o.x_rot);
    lemma_step_linear(u4, v4, n, Axis3D::Y, o.y_mir, o.y_rot);
    lemma_step_linear(u5, v5, n, Axis3D::Z, o.z_mir, o.z_rot);
}

/// The origin is fixed by every orientation.
pub proof fn lemma_applied_zero(o: Orientation)
    ensures
        (PointView { x: 0, y: 0, z: 0 }).applied(o) == (PointView { x: 0, y: 0, z: 0 }),
{
}

/// The unit offset along an axis.
pub open spec fn unit(axis: Axis3D) -> PointView {
    match axis {
        Axis3D::X => PointView { x: 1, y: 0, z: 0 },
        Axis3D::Y => PointView { x: 0, y: 1, z: 0 },
        Axis3D::Z => PointView { x: 0, y: 0, z: 1 },
    }
}

/// A unit offset along some axis, in either direction.
pub open spec fn is_signed_unit(p: PointView) -> bool {
    ||| p == unit(Axis3D::X)
    ||| p == unit(Axis3D::X).scaled(-1)
    ||| p == unit(Axis3D::Y)
    ||| p == unit(Axis3D::Y).scaled(-1)
    ||| p == unit(Axis3D::Z)
    ||| p == unit(Axis3D::Z).scaled(-1)
}

/// A mirror or a rotation carries a signed unit to a signed unit.
proof fn lemma_step_signed_unit(p: PointView, axis: Axis3D, cond: bool, amount: RotationAmount)
    requires
        is_signed_unit(p),
    ensures
        is_signed_unit(p.mirrored_if(cond, axis)),
        is_signed_unit(p.rotated(axis, amount)),
{
}

/// An orientation carries the unit offset of every axis to a unit offset
/// of some axis, in some direction.
pub proof fn lemma_unit_applied(o: Orientation, axis: Axis3D)
    ensures
        is_signed_unit(unit(axis).applied(o)),
{
    let p = unit(axis);
    let p1 = p.mirrored_if(o.x_mir, Axis3D::X);
    let p2 = p1.mirrored_if(o.y_mir, Axis3D::Y);
    let p3 = p2.mirrored_if(o.z_mir, Axis3D::Z);
    let p4 = p3.rotated(Axis3D::X, o.x_rot);
    let p5 = p4.rotated(Axis3D::Y, o.y_rot);
    lemma_step_signed_unit(p, Axis3D::X, o.x_mir, o.x_rot);
    lemma_step_signed_unit(p1, Axis3D::Y, o.y_mir, o.y_rot);
    lemma_step_signed_unit(p2, Axis3D::Z, o.z_mir, o.z_rot);
    lemma_step_signed_unit(p3, Axis3D::X, o.x_mir, o.x_rot);
    lemma_step_signed_unit(p4, Axis3D::Y, o.y_mir, o.y_rot);
    lemma_step_signed_unit(p5, Axis3D::Z, o.z_mir, o.z_rot);
}

/// A mirror or a rotation keeps the squared distance to the origin.
proof fn lemma_step_norm(p: PointView, axis: Axis3D, cond: bool, amount: RotationAmount)
    ensures
        p.mirrored_if(cond, axis).sq_norm() == p.sq_norm(),
        p.rotated(axis, amount).sq_norm() == p.sq_norm(),
{
    assert((-p.x) * (-p.x) == p.x * p.x && (-p.y) * (-p.y) == p.y * p.y && (-p.z) * (-p.z) == p.z
        * p.z) by (nonlinear_arith);
}

/// An orientation keeps the squared distance to the origin.
pub proof fn lemma_applied_norm(p: PointView, o: Orientation)
    ensures
        p.applied(o).sq_norm() == p.sq_norm(),
{
    let p1 = p.mirrored_if(o.x_mir, Axis3D::X);
    let p2 = p1.mirrored_if(o.y_mir, Axis3D::Y);
    let p3 = p2.mirrored_if(o.z_mir, Axis3D::Z);
    let p4 = p3.rotated(Axis3D::X, o.x_rot);
    let p5 = p4.rotated(Axis3D::Y, o.y_rot);
    lemma_step_norm(p, Axis3D::X, o.x_mir, o.x_rot);
    lemma_step_norm(p1, Axis3D::Y, o.y_mir, o.y_rot);
    lemma_step_norm(p2, Axis3D::Z, o.z_mir, o.z_rot);
    lemma_step_norm(p3, Axis3D::X, o.x_mir, o.x_rot);
    lemma_step_norm(p4, Axis3D::Y, o.y_mir, o.y_rot);
    lemma_step_norm(p5, Axis3D::Z, o.z_mir, o.z_rot);
}

/// A point is the sum of its coordinates along the three unit offsets.
proof fn lemma_decompose(p: PointView)
    ensures
        p == unit(Axis3D::X).scaled(p.x).plus(unit(Axis3D::Y).scaled(p.y)).plus(
            unit(Axis3D::Z).scaled(p.z),
        ),
{
}

/// How an orientation moves a point: the sum of the images of the three
/// unit offsets, each scaled by the matching coordinate.
pub proof fn lemma_applied_decompose(p: PointView, o: Orientation)
    ensures
        p.applied(o) == unit(Axis3D::X).applied(o).scaled(p.x).plus(
            unit(Axis3D::Y).applied(o).scaled(p.y),
        ).plus(unit(Axis3D::Z).applied(o).scaled(p.z)),
{
    lemma_decompose(p);
    lemma_applied_linear(
        unit(Axis3D::X).scaled(p.x).plus(unit(Axis3D::Y).scaled(p.y)),
        unit(Axis3D::Z).scaled(p.z),
        1,
        o,
    );
    lemma_applied_linear(unit(Axis3D::X).scaled(p.x), unit(Axis3D::Y).scaled(p.y), 1, o);
    lemma_applied_linear(unit(Axis3D::X), unit(Axis3D::X), p.x, o);
    lemma_applied_linear(unit(Axis3D::Y), unit(Axis3D::Y), p.y, o);
    lemma_applied_linear(unit(Axis3D::Z), unit(Axis3D::Z), p.z, o);
}

/// Different axes stay different: the images of the unit offsets of two
/// different axes never lie on the same axis.
pub proof fn lemma_units_independent(o: Orientation, a1: Axis3D, a2: Axis3D)
    requires
        a1 != a2,
    ensures
        unit(a1).applied(o) != unit(a2).applied(o),
        unit(a1).applied(o) != unit(a2).applied(o).scaled(-1),
{
    lemma_applied_zero(o);
    if unit(a1).applied(o) == unit(a2).applied(o) {
        lemma_applied_linear(unit(a1), unit(a2), 1, o);
        let d = unit(a1).minus(unit(a2));
        assert(d.applied(o) == (PointView { x: 0, y: 0, z: 0 }));
        lemma_apply_then_unapply(d, o);
        lemma_apply_then_unapply(PointView { x: 0, y: 0, z: 0 }, o);
        assert(d == (PointView { x: 0, y: 0, z: 0 }));
        assert(false);
    }
    if unit(a1).applied(o) == unit(a2).applied(o).scaled(-1) {
        lemma_applied_linear(unit(a1), unit(a2), 1, o);
        let d = unit(a1).plus(unit(a2));
        assert(d.applied(o) == (PointView { x: 0, y: 0, z: 0 }));
        lemma_apply_then_unapply(d, o);
        lemma_apply_then_unapply(PointView { x: 0, y: 0, z: 0 }, o);
        assert(d == (PointView { x: 0, y: 0, z: 0 }));
        assert(false);
    }
}

/// The target coordinate along `a2` reads the source coordinate along
/// `a1`, either plainly or negated, for every point.
pub open spec fn reads_axis(o: Orientation, a2: Axis3D, a1: Axis3D) -> bool {
    ||| (forall|p: PointView| (#[trigger] p.applied(o)).coord(a2) == p.coord(a1))
    ||| (forall|p: PointView| (#[trigger] p.applied(o)).coord(a2) == -p.coord(a1))
}

/// The coordinate of a sum of three scaled offsets, of which only one
/// reaches the axis read.
proof fn lemma_sum_coord(
    p: PointView,
    ux: PointView,
    uy: PointView,
    uz: PointView,
    t: PointView,
    a2: Axis3D,
)
    requires
        t == ux.scaled(p.x).plus(uy.scaled(p.y)).plus(uz.scaled(p.z)),
    ensures
        t.coord(a2) == p.x * ux.coord(a2) + p.y * uy.coord(a2) + p.z * uz.coord(a2),
{
}

/// One point's target coordinate, read off the images of the three unit
/// offsets.
#[verifier::rlimit(100)]
#[verifier::spinoff_prover]
proof fn lemma_read_one(o: Orientation, a2: Axis3D, a1: Axis3D, p: PointView)
    requires
        forall|b: Axis3D| b != a1 ==> (#[trigger] unit(b).applied(o)).coord(a2) == 0,
    ensures
        (unit(a1).applied(o)).coord(a2) == 1 ==> p.applied(o).coord(a2) == p.coord(a1),
        (unit(a1).applied(o)).coord(a2) == -1 ==> p.applied(o).coord(a2) == -p.coord(a1),
{
    lemma_applied_decompose(p, o);
    lemma_sum_coord(
        p,
        unit(Axis3D::X).applied(o),
        unit(Axis3D::Y).applied(o),
        unit(Axis3D::Z).applied(o),
        p.applied(o),
        a2,
    );
}

/// A target axis whose coordinate only the one source unit reaches reads
/// that source axis.
#[verifier::rlimit(100)]
#[verifier::spinoff_prover]
proof fn lemma_reads_from_units(o: Orientation, a2: Axis3D, a1: Axis3D)
    requires
        (unit(a1).applied(o)).coord(a2) == 1 || (unit(a1).applied(o)).coord(a2) == -1,
        forall|b: Axis3D| b != a1 ==> (#[trigger] unit(b).applied(o)).coord(a2) == 0,
    ensures
        reads_axis(o, a2, a1),
{
    if (unit(a1).applied(o)).coord(a2) == 1 {
        assert forall|p: PointView| (#[trigger] p.applied(o)).coord(a2) == p.coord(a1) by {
            lemma_read_one(o, a2, a1, p);
        }
    } else {
        assert forall|p: PointView| (#[trigger] p.applied(o)).coord(a2) == -p.coord(a1) by {
            lemma_read_one(o, a2, a1, p);
        }
    }
}

/// Every target axis reads exactly one source axis.
#[verifier::rlimit(100)]
#[verifier::spinoff_prover]
pub proof fn lemma_axis_correspondence(o: Orientation, a2: Axis3D) -> (a1: Axis3D)
    ensures
        reads_axis(o, a2, a1),
{
    let ux = unit(Axis3D::X).applied(o);
    let uy = unit(Axis3D::Y).applied(o);
    let uz = unit(Axis3D::Z).applied(o);
    lemma_unit_applied(o, Axis3D::X);
    lemma_unit_applied(o, Axis3D::Y);
    lemma_unit_applied(o, Axis3D::Z);
    lemma_units_independent(o, Axis3D::X, Axis3D::Y);
    lemma_units_independent(o, Axis3D::X, Axis3D::Z);
    lemma_units_independent(o, Axis3D::Y, Axis3D::Z);
    let a1: Axis3D = if ux.coord(a2) != 0 {
        Axis3D::X
    } else if uy.coord(a2) != 0 {
        Axis3D::Y
    } else {
        Axis3D::Z
    };
    assert(uz.coord(a2) != 0 || ux.coord(a2) != 0 || uy.coord(a2) != 0);
    let u1 = unit(a1).applied(o);
    assert(u1.coord(a2) != 0);
    assert(u1.coord(a2) == 1 || u1.coord(a2) == -1);
    assert forall|b: Axis3D| b != a1 implies (#[trigger] unit(b).applied(o)).coord(a2) == 0 by {
        lemma_units_independent(o, a1, b);
        lemma_units_independent(o, b, a1);
    }
    lemma_reads_from_units(o, a2, a1);
    a1
}

/// Two different target axes read two different source axes.
pub proof fn lemma_axis_correspondence_injective(
    o: Orientation,
    b1: Axis3D,
    b2: Axis3D,
    a: Axis3D,
)
    requires
        b1 != b2,
        reads_axis(o, b1, a),
    ensures
        !reads_axis(o, b2, a),
{
    lemma_unit_applied(o, a);
    let u = unit(a).applied(o);
    assert(u.coord(b1) == 1 || u.coord(b1) == -1);
    if reads_axis(o, b2, a) {
        assert(u.coord(b2) == 1 || u.coord(b2) == -1);
        assert(false);
    }
}

/// The identity orientation moves no point.
pub proof fn lemma_identity_orientation(p: PointView)
    ensures
        p.applied(Orientation::identity()) == p,
        p.unapplied(Orientation::identity()) == p,
{
}

/// A quarter turn or a mirror only permutes and negates coordinates, so a
/// magnitude bound that holds of every coordinate is kept.
proof fn lemma_step_bounded(p: PointView, axis: Axis3D, cond: bool, amount: RotationAmount, b: int)
    requires
        p.bounded(b),
    ensures
        p.mirrored_if(cond, axis).bounded(b),
        p.rotated(axis, amount).bounded(b),
{
}

/// An orientation only permutes and negates coordinates, so a magnitude
/// bound that holds of every coordinate is kept.
pub proof fn lemma_applied_bounded(p: PointView, o: Orientation, b: int)
    requires
        p.bounded(b),
    ensures
        p.applied(o).bounded(b),
        p.unapplied(o).bounded(b),
{
    let m1 = p.mirrored_if(o.x_mir, Axis3D::X);
    let m2 = m1.mirrored_if(o.y_mir, Axis3D::Y);
    let m3 = m2.mirrored_if(o.z_mir, Axis3D::Z);
    let r1 = m3.rotated(Axis3D::X, o.x_rot);
    let r2 = r1.rotated(Axis3D::Y, o.y_rot);
    lemma_step_bounded(p, Axis3D::X, o.x_mir, o.x_rot, b);
    lemma_step_bounded(m1, Axis3D::Y, o.y_mir, o.y_rot, b);
    lemma_step_bounded(m2, Axis3D::Z, o.z_mir, o.z_rot, b);
    lemma_step_bounded(m3, Axis3D::X, o.x_mir, o.x_rot, b);
    lemma_step_bounded(r1, Axis3D::Y, o.y_mir, o.y_rot, b);
    lemma_step_bounded(r2, Axis3D::Z, o.z_mir, o.z_rot, b);
    let u1 = p.rotated(Axis3D::Z, o.z_rot.inverted());
    let u2 = u1.rotated(Axis3D::Y, o.y_rot.inverted());
    let u3 = u2.rotated(Axis3D::X, o.x_rot.inverted());
    let u4 = u3.mirrored_if(o.z_mir, Axis3D::Z);
    let u5 = u4.mirrored_if(o.y_mir, Axis3D::Y);
    lemma_step_bounded(p, Axis3D::Z, o.z_mir, o.z_rot.inverted(), b);
    lemma_step_bounded(u1, Axis3D::Y, o.y_mir, o.y_rot.inverted(), b);
    lemma_step_bounded(u2, Axis3D::X, o.x_mir, o.x_rot.inverted(), b);
    lemma_step_bounded(u3, Axis3D::Z, o.z_mir, o.z_rot.inverted(), b);
    lemma_step_bounded(u4, Axis3D::Y, o.y_mir, o.y_rot.inverted(), b);
    lemma_step_bounded(u5, Axis3D::X, o.x_mir, o.x_rot.inverted(), b);
}

/// A lattice cell offset from the global origin, one signed integer per axis.
#[derive(Debug, Copy, Clone, PartialEq, Eq, Structural, Hash)]
pub struct Point3D {
    pub x: i32,
    pub y: i32,
    pub z: i32,
}

impl View for Point3D {
    type V = PointView;

    open spec fn view(&self) -> PointView {
        PointView { x: self.x as int, y: self.y as int, z: self.z as int }
    }
}

impl Default for Point3D {
    fn default() -> (r: Self)
        ensures
            r == (Point3D { x: 0, y: 0, z: 0 }),
    {
        Point3D { x: 0, y: 0, z: 0 }
    }
}

impl From<(i32, i32, i32)> for Point3D {
    fn from(t: (i32, i32, i32)) -> (r: Self)
        ensures
            r == (Point3D { x: t.0, y: t.1, z: t.2 }),
    {
        Point3D { x: t.0, y: t.1, z: t.2 }
    }
}

impl vstd::std_specs::convert::FromSpecImpl<(i32, i32, i32)> for Point3D {
    open spec fn obeys_from_spec() -> bool {
        true
    }

    open spec fn from_spec(t: (i32, i32, i32)) -> Point3D {
        Point3D { x: t.0, y: t.1, z: t.2 }
    }
}

impl Point3D {
    /// No coordinate is `i32::MIN`, so each can be negated.
    pub open spec fn in_range(self) -> bool {
        self.x > i32::MIN && self.y > i32::MIN && self.z > i32::MIN
    }

    pub fn new(x: i32, y: i32, z: i32) -> (r: Self)
        ensures
            r == (Point3D { x, y, z }),
    {
        Point3D { x, y, z }
    }

    pub fn x(&self) -> (r: i32)
        ensures
            r == self.x,
    {
        self.x
    }

    pub fn y(&self) -> (r: i32)
        ensures
            r == self.y,
    {
        self.y
    }

    pub fn z(&self) -> (r: i32)
        ensures
            r == self.z,
    {
        self.z
    }

    /// Componentwise sum.
    pub fn add(self, rhs: Self) -> (r: Self)
        requires
            i32::MIN <= self.x + rhs.x <= i32::MAX,
            i32::MIN <= self.y + rhs.y <= i32::MAX,
            i32::MIN <= self.z + rhs.z <= i32::MAX,
        ensures
            r@ == self@.plus(rhs@),
    {
        Point3D { x: self.x + rhs.x, y: self.y + rhs.y, z: self.z + rhs.z }
    }

    /// Componentwise difference.
    pub fn sub(self, rhs: Self) -> (r: Self)
        requires
            i32::MIN <= self.x - rhs.x <= i32::MAX,
            i32::MIN <= self.y - rhs.y <= i32::MAX,
            i32::MIN <= self.z - rhs.z <= i32::MAX,
        ensures
            r@ == self@.minus(rhs@),
    {
        Point3D { x: self.x - rhs.x, y: self.y - rhs.y, z: self.z - rhs.z }
    }

    /// Apply one function to all three coordinates.
    pub fn map_all<F: Fn(i32) -> i32>(self, f: F) -> (r: Self)
        requires
            call_requires(f, (self.x,)),
            call_requires(f, (self.y,)),
            call_requires(f, (self.z,)),
        ensures
            call_ensures(f, (self.x,), r.x),
            call_ensures(f, (self.y,), r.y),
            call_ensures(f, (self.z,), r.z),
    {
        Point3D { x: f(self.x), y: f(self.y), z: f(self.z) }
    }

    /// Apply one function per coordinate.
    pub fn map_each<X: Fn(i32) -> i32, Y: Fn(i32) -> i32, Z: Fn(i32) -> i32>(
        self,
        x_f: X,
        y_f: Y,
        z_f: Z,
    ) -> (r: Self)
        requires
            call_requires(x_f, (self.x,)),
            call_requires(y_f, (self.y,)),
            call_requires(z_f, (self.z,)),
        ensures
            call_ensures(x_f, (self.x,), r.x),
            call_ensures(y_f, (self.y,), r.y),
            call_ensures(z_f, (self.z,), r.z),
    {
        Point3D { x: x_f(self.x), y: y_f(self.y), z: z_f(self.z) }
    }

    /// Negates the coordinate along `axis`.
    pub fn mirror(&mut self, axis: Axis3D)
        requires
            old(self).in_range(),
        ensures
            final(self)@ == old(self)@.mirrored(axis),
            final(self).in_range(),
    {
        match axis {
            Axis3D::X => {
                self.x = -self.x;
            },
            Axis3D::Y => {
                self.y = -self.y;
            },
            Axis3D::Z => {
                self.z = -self.z;
            },
        }
    }

    /// One clockwise quarter turn of the two coordinates orthogonal to `axis`.
    fn rotate90(&mut self, axis: Axis3D)
        requires
            old(self).in_range(),
        ensures
            final(self)@ == old(self)@.rotated90(axis),
            final(self).in_range(),
    {
        match axis {
            Axis3D::X => {
                let t: i32 = self.y;
                self.y = -self.z;
                self.z = t;
            },
            Axis3D::Y => {
                let t: i32 = self.x;
                self.x = -self.z;
                self.z = t;
            },
            Axis3D::Z => {
                let t: i32 = self.x;
                self.x = -self.y;
                self.y = t;
            },
        }
    }

    /// Performs `amount / 90°` clockwise quarter turns around `axis`.
    pub fn rotate(&mut self, axis: Axis3D, amount: RotationAmount)
        requires
            old(self).in_range(),
        ensures
            final(self)@ == old(self)@.rotated(axis, amount),
            final(self).in_range(),
    {
        match amount {
            RotationAmount::Zero => {},
            RotationAmount::Ninety => {
                self.rotate90(axis);
            },
            RotationAmount::OneEighty => {
                self.rotate90(axis);
                self.rotate90(axis);
            },
            RotationAmount::TwoSeventy => {
                self.rotate90(axis);
                self.rotate90(axis);
                self.rotate90(axis);
            },
        }
    }

    /// Applies mirrors for X, Y, Z in order, then rotations for X, Y, Z in
    /// order.
    pub fn apply_orientation(&mut self, orientation: &Orientation)
        requires
            old(self).in_range(),
        ensures
            final(self)@ == old(self)@.applied(*orientation),
            final(self).in_range(),
    {
        if orientation.x_mir {
            self.mirror(Axis3D::X);
        }
        if orientation.y_mir {
            self.mirror(Axis3D::Y);
        }
        if orientation.z_mir {
            self.mirror(Axis3D::Z);
        }
        self.rotate(Axis3D::X, orientation.x_rot);
        self.rotate(Axis3D::Y, orientation.y_rot);
        self.rotate(Axis3D::Z, orientation.z_rot);
    }

    /// Undoes a previously applied orientation: rotations in reverse order
    /// with inverted amounts, then the mirrors in reverse order.
    pub fn apply_inverse_orientation(&mut self, orientation: &Orientation)
        requires
            old(self).in_range(),
        ensures
            final(self)@ == old(self)@.unapplied(*orientation),
            final(self).in_range(),
    {
        self.rotate(Axis3D::Z, orientation.z_rot.inverse());
        self.rotate(Axis3D::Y, orientation.y_rot.inverse());
        self.rotate(Axis3D::X, orientation.x_rot.inverse());
        if orientation.z_mir {
            self.mirror(Axis3D::Z);
        }
        if orientation.y_mir {
            self.mirror(Axis3D::Y);
        }
        if orientation.x_mir {
            self.mirror(Axis3D::X);
        }
    }

    /// Squared Euclidean distance to the origin, exact in integers.
    pub fn squared_distance_to_origin(&self) -> (r: u64)
        requires
            self@.bounded(0x10000),
        ensures
            r == self@.sq_norm(),
    {
        let x: i64 = self.x as i64;
        let y: i64 = self.y as i64;
        let z: i64 = self.z as i64;
        proof {
            assert(0 <= x * x <= 0x10000 * 0x10000 && 0 <= y * y <= 0x10000 * 0x10000 && 0 <= z * z
                <= 0x10000 * 0x10000) by (nonlinear_arith)
                requires
                    -0x10000 <= x <= 0x10000,
                    -0x10000 <= y <= 0x10000,
                    -0x10000 <= z <= 0x10000,
            ;
        }
        (x * x + y * y + z * z) as u64
    }
}

/// An axis-aligned box of lattice cells around the origin: an independent
/// non-negative reach in the positive and the negative direction of each
/// axis.  The box always contains the origin.
#[derive(Debug, Default, Copy, Clone, PartialEq, Eq, Structural)]
pub struct Finite3DDimension {
    pub x_pos: u32,
    pub x_neg: u32,
    pub y_pos: u32,
    pub y_neg: u32,
    pub z_pos: u32,
    pub z_neg: u32,
}

impl Finite3DDimension {
    /// Every reach is within `MAX_EXTENT`, which keeps the cell count and all
    /// coordinate arithmetic inside the machine types.
    pub open spec fn wf(self) -> bool {
        self.x_pos <= crate::MAX_EXTENT && self.x_neg <= crate::MAX_EXTENT
            && self.y_pos <= crate::MAX_EXTENT && self.y_neg <= crate::MAX_EXTENT
            && self.z_pos <= crate::MAX_EXTENT && self.z_neg <= crate::MAX_EXTENT
    }

    pub open spec fn spec_axis_len(self, axis: Axis3D) -> int {
        match axis {
            Axis3D::X => self.x_pos + self.x_neg + 1,
            Axis3D::Y => self.y_pos + self.y_neg + 1,
            Axis3D::Z => self.z_pos + self.z_neg + 1,
        }
    }

    /// Number of cells in the box.
    pub open spec fn spec_size(self) -> int {
        self.spec_axis_len(Axis3D::X) * self.spec_axis_len(Axis3D::Y) * self.spec_axis_len(
            Axis3D::Z,
        )
    }

    /// Whether a point lies inside the box along one axis.
    pub open spec fn axis_contains(self, q: PointView, axis: Axis3D) -> bool {
        match axis {
            Axis3D::X => -(self.x_neg as int) <= q.x <= self.x_pos as int,
            Axis3D::Y => -(self.y_neg as int) <= q.y <= self.y_pos as int,
            Axis3D::Z => -(self.z_neg as int) <= q.z <= self.z_pos as int,
        }
    }

    /// Whether a point lies inside the box.
    pub open spec fn contains(self, q: PointView) -> bool {
        self.axis_contains(q, Axis3D::X) && self.axis_contains(q, Axis3D::Y)
            && self.axis_contains(q, Axis3D::Z)
    }

    /// The largest of the six reaches.
    pub open spec fn max_reach(self) -> int {
        vstd::math::max(
            self.x_pos as int,
            vstd::math::max(
                self.x_neg as int,
                vstd::math::max(
                    self.y_pos as int,
                    vstd::math::max(
                        self.y_neg as int,
                        vstd::math::max(self.z_pos as int, self.z_neg as int),
                    ),
                ),
            ),
        )
    }

    /// Every reach is at most `b`.
    pub open spec fn within(self, b: int) -> bool {
        self.x_pos <= b && self.x_neg <= b && self.y_pos <= b && self.y_neg <= b && self.z_pos
            <= b && self.z_neg <= b
    }

    /// A new box; each argument is the reach along one signed axis direction.
    pub fn new(x_pos: u32, x_neg: u32, y_pos: u32, y_neg: u32, z_pos: u32, z_neg: u32) -> (r: Self)
        ensures
            r == (Finite3DDimension { x_pos, x_neg, y_pos, y_neg, z_pos, z_neg }),
    {
        Finite3DDimension { x_pos, x_neg, y_pos, y_neg, z_pos, z_neg }
    }

    /// The number of points contained in this dimension.
    pub fn size(&self) -> (r: u32)
        requires
            self.wf(),
        ensures
            r == self.spec_size(),
    {
        let w: u64 = self.axis_len(Axis3D::X) as u64;
        let d: u64 = self.axis_len(Axis3D::Y) as u64;
        let h: u64 = self.axis_len(Axis3D::Z) as u64;
        proof {
            assert(0 <= w * d <= 601 * 601 && 0 <= w * d * h <= 601 * 601 * 601)
                by (nonlinear_arith)
                requires
                    0 <= w <= 601,
                    0 <= d <= 601,
                    0 <= h <= 601,
            ;
        }
        (w * d * h) as u32
    }

    pub fn axis_len(&self, axis: Axis3D) -> (r: u32)
        requires
            self.wf(),
        ensures
            r == self.spec_axis_len(axis),
    {
        let (pos, neg): (u32, u32) = match axis {
            Axis3D::X => (self.x_pos, self.x_neg),
            Axis3D::Y => (self.y_pos, self.y_neg),
            Axis3D::Z => (self.z_pos, self.z_neg),
        };
        pos + neg + 1
    }

    /// The axis lengths for each of the three axes in the order x, y, z.
    pub fn all_axis_len(&self) -> (r: (u32, u32, u32))
        requires
            self.wf(),
        ensures
            r.0 == self.spec_axis_len(Axis3D::X),
            r.1 == self.spec_axis_len(Axis3D::Y),
            r.2 == self.spec_axis_len(Axis3D::Z),
    {
        (self.axis_len(Axis3D::X), self.axis_len(Axis3D::Y), self.axis_len(Axis3D::Z))
    }

    /// Checks whether the given point is inside this dimension.
    /// The default point is inside every dimension.
    pub fn in_bounds(&self, p: &Point3D) -> (r: bool)
        ensures
            r == self.contains(p@),
    {
        self.dim_in_bounds(p, Axis3D::X) && self.dim_in_bounds(p, Axis3D::Y) && self.dim_in_bounds(
            p,
            Axis3D::Z,
        )
    }

    /// Checks whether the given point is inside this dimension along `axis`.
    pub fn dim_in_bounds(&self, p: &Point3D, axis: Axis3D) -> (r: bool)
        ensures
            r == self.axis_contains(p@, axis),
    {
        let (pos, neg, c): (u32, u32, i32) = match axis {
            Axis3D::X => (self.x_pos, self.x_neg, p.x),
            Axis3D::Y => (self.y_pos, self.y_neg, p.y),
            Axis3D::Z => (self.z_pos, self.z_neg, p.z),
        };
        -(neg as i64) <= c as i64 && c as i64 <= pos as i64
    }
}

} // verus!
