use vstd::prelude::*;
use crate::numeric::lemma_mixed_digit;
use crate::orientation::Orientation;
use crate::point::{Axis3D, Finite3DDimension, Point3D, PointView};

verus! {

/// Converts between a point, subject to the current orientation, and a dense
/// linear index into the storage of a bounded box of cells.  The index
/// assignment is independent of the orientation: the orientation is applied
/// only at the point-to-index boundary, so the underlying storage never
/// moves when the orientation changes.
#[derive(Debug, Copy, Clone, PartialEq, Eq, Structural)]
pub struct Mapper {
    pub dimension: Finite3DDimension,
    pub orientation: Orientation,
}

impl Mapper {
    pub open spec fn wf(self) -> bool {
        self.dimension.wf()
    }

    /// The linear index of a storage point, before any orientation:
    /// `x + W * (y + D * z)` after offsetting each axis by its negative
    /// reach.
    pub open spec fn spec_index_of(self, q: PointView) -> int {
        let w = self.dimension.spec_axis_len(Axis3D::X);
        let d = self.dimension.spec_axis_len(Axis3D::Y);
        (q.x + self.dimension.x_neg) + w * ((q.y + self.dimension.y_neg) + d * (q.z
            + self.dimension.z_neg))
    }

    /// The storage point of a linear index, before any orientation.
    pub open spec fn spec_storage_point(self, i: int) -> PointView {
        let w = self.dimension.spec_axis_len(Axis3D::X);
        let d = self.dimension.spec_axis_len(Axis3D::Y);
        PointView {
            x: i % w - self.dimension.x_neg,
            y: i / w % d - self.dimension.y_neg,
            z: i / (w * d) - self.dimension.z_neg,
        }
    }

    /// What `unresolve` returns: the index of the inverse-oriented point, or
    /// nothing when that point lies outside the box.
    pub open spec fn spec_unresolve(self, p: PointView) -> Option<int> {
        let q = p.unapplied(self.orientation);
        if self.dimension.contains(q) {
            Some(self.spec_index_of(q))
        } else {
            None
        }
    }

    /// What `resolve` returns: the oriented storage point of the index, or
    /// nothing when the index lies outside the storage.
    pub open spec fn spec_resolve(self, i: int) -> Option<PointView> {
        if 0 <= i < self.dimension.spec_size() {
            Some(self.spec_storage_point(i).applied(self.orientation))
        } else {
            None
        }
    }

    pub fn new(dim: Finite3DDimension) -> (r: Self)
        ensures
            r.dimension == dim,
            r.orientation == Orientation::identity(),
    {
        Mapper { dimension: dim, orientation: Orientation::default() }
    }

    pub fn dimension(&self) -> (r: Finite3DDimension)
        ensures
            r == self.dimension,
    {
        self.dimension
    }

    pub fn orientation(&self) -> (r: Orientation)
        ensures
            r == self.orientation,
    {
        self.orientation
    }

    pub fn set_orientation(&mut self, orientation: Orientation)
        ensures
            *final(self) == (Mapper { orientation, ..*old(self) }),
    {
        self.orientation = orientation;
    }

    /// The linear index of `point` under the current orientation, or `None`
    /// when `point` lies outside the box.
    pub fn unresolve(&self, point: Point3D) -> (r: Option<usize>)
        requires
            self.wf(),
            point.in_range(),
        ensures
            r is Some <==> self.spec_unresolve(point@) is Some,
            r is Some ==> r->Some_0 == self.spec_unresolve(point@)->Some_0,
            r is Some ==> r->Some_0 < self.dimension.spec_size(),
    {
        let mut p = point;
        p.apply_inverse_orientation(&self.orientation);
        if !self.dimension.in_bounds(&p) {
            return None;
        }
        let dim = self.dimension;
        let w: usize = dim.axis_len(Axis3D::X) as usize;
        let d: usize = dim.axis_len(Axis3D::Y) as usize;
        let ux: usize = (p.x + dim.x_neg as i32) as usize;
        let uy: usize = (p.y + dim.y_neg as i32) as usize;
        let uz: usize = (p.z + dim.z_neg as i32) as usize;
        proof {
            self.lemma_index_of_storage_point_roundtrip(p@);
            assert(d * uz <= 601 * 601 && w * (uy + d * uz) <= 601 * 601 * 601)
                by (nonlinear_arith)
                requires
                    0 <= d <= 601,
                    0 <= w <= 601,
                    0 <= uy < 601,
                    0 <= uz < 601,
            ;
        }
        Some(ux + w * (uy + d * uz))
    }

    /// The point that the linear index stores, under the current
    /// orientation, or `None` when the index lies outside the storage.
    pub fn resolve(&self, index: usize) -> (r: Option<Point3D>)
        requires
            self.wf(),
        ensures
            r is Some <==> self.spec_resolve(index as int) is Some,
            r is Some ==> r->Some_0@ == self.spec_resolve(index as int)->Some_0,
            r is Some ==> r->Some_0.in_range(),
    {
        let dim = self.dimension;
        let size: u32 = dim.size();
        if index >= size as usize {
            return None;
        }
        let w: usize = dim.axis_len(Axis3D::X) as usize;
        let d: usize = dim.axis_len(Axis3D::Y) as usize;
        proof {
            self.lemma_storage_point_of_index_roundtrip(index as int);
            assert(0 < w * d <= 601 * 601) by (nonlinear_arith)
                requires
                    0 < w <= 601,
                    0 < d <= 601,
            ;
        }
        let ix: usize = index % w;
        let iy: usize = index / w % d;
        let iz: usize = index / (w * d);
        let mut p = Point3D::new(
            ix as i32 - dim.x_neg as i32,
            iy as i32 - dim.y_neg as i32,
            iz as i32 - dim.z_neg as i32,
        );
        p.apply_orientation(&self.orientation);
        Some(p)
    }

    /// A storage point inside the box linearizes to an index inside the
    /// storage, and decodes back to itself.
    pub proof fn lemma_index_of_storage_point_roundtrip(self, q: PointView)
        requires
            self.wf(),
            self.dimension.contains(q),
        ensures
            0 <= self.spec_index_of(q) < self.dimension.spec_size(),
            self.spec_storage_point(self.spec_index_of(q)) == q,
    {
        let w = self.dimension.spec_axis_len(Axis3D::X);
        let d = self.dimension.spec_axis_len(Axis3D::Y);
        let h = self.dimension.spec_axis_len(Axis3D::Z);
        let a = q.x + self.dimension.x_neg;
        let b = q.y + self.dimension.y_neg;
        let c = q.z + self.dimension.z_neg;
        let i = self.spec_index_of(q);
        assert(i == a + w * (b + d * c));
        lemma_mixed_digit(a, b + d * c, w);
        lemma_mixed_digit(b, c, d);
        assert(i / w == b + d * c);
        assert(i / w % d == b && i / w / d == c);
        vstd::arithmetic::div_mod::lemma_div_denominator(i, w, d);
        assert(i / (w * d) == c);
        assert(b + d * c <= d * h - 1) by (nonlinear_arith)
            requires
                0 <= b < d,
                0 <= c <= h - 1,
        ;
        assert(a + w * (b + d * c) < w * (d * h)) by (nonlinear_arith)
            requires
                0 <= a < w,
                0 <= b + d * c <= d * h - 1,
                0 < w,
        ;
        assert(w * (d * h) == w * d * h) by (nonlinear_arith);
    }

    /// An index inside the storage decodes to a storage point inside the
    /// box, and linearizes back to itself.
    pub proof fn lemma_storage_point_of_index_roundtrip(self, i: int)
        requires
            self.wf(),
            0 <= i < self.dimension.spec_size(),
        ensures
            self.dimension.contains(self.spec_storage_point(i)),
            self.spec_index_of(self.spec_storage_point(i)) == i,
    {
        let w = self.dimension.spec_axis_len(Axis3D::X);
        let d = self.dimension.spec_axis_len(Axis3D::Y);
        let h = self.dimension.spec_axis_len(Axis3D::Z);
        vstd::arithmetic::div_mod::lemma_mod_bound(i, w);
        vstd::arithmetic::div_mod::lemma_mod_bound(i / w, d);
        vstd::arithmetic::div_mod::lemma_div_denominator(i, w, d);
        assert(0 <= i / w) by (nonlinear_arith)
            requires
                0 <= i,
                0 < w,
        ;
        assert(i / w / d < h) by (nonlinear_arith)
            requires
                0 <= i < w * d * h,
                0 < w,
                0 < d,
                0 < h,
        ;
        assert(0 <= i / w / d) by (nonlinear_arith)
            requires
                0 <= i / w,
                0 < d,
        ;
        vstd::arithmetic::div_mod::lemma_fundamental_div_mod(i, w);
        vstd::arithmetic::div_mod::lemma_fundamental_div_mod(i / w, d);
        assert(i == i % w + w * (i / w % d + d * (i / w / d))) by (nonlinear_arith)
            requires
                i == w * (i / w) + i % w,
                i / w == d * (i / w / d) + i / w % d,
        ;
    }

    /// Resolving the index that a point unresolves to gives back that point.
    pub proof fn lemma_resolve_of_unresolve(self, p: PointView)
        requires
            self.wf(),
            self.spec_unresolve(p) is Some,
        ensures
            self.spec_resolve(self.spec_unresolve(p)->Some_0) == Some(p),
    {
        let q = p.unapplied(self.orientation);
        self.lemma_index_of_storage_point_roundtrip(q);
        crate::point::lemma_unapply_then_apply(p, self.orientation);
    }

    /// Unresolving the point that an index resolves to gives back that
    /// index.
    pub proof fn lemma_unresolve_of_resolve(self, i: int)
        requires
            self.wf(),
            self.spec_resolve(i) is Some,
        ensures
            self.spec_unresolve(self.spec_resolve(i)->Some_0) == Some(i),
    {
        let q = self.spec_storage_point(i);
        self.lemma_storage_point_of_index_roundtrip(i);
        crate::point::lemma_apply_then_unapply(q, self.orientation);
    }
}

} // verus!
