use vstd::prelude::*;
use crate::block_arrangement::{
    alignment_scaled_of, cells_sum, density_scaled_of, fixed_scale, lemma_oriented_image_props,
    lemma_set_sum_image, lemma_storage_image_len, oriented_image, reoriented, scaled_occupied,
    scaled_rel, shape_matches_under, shapes_equal, view_wf, BlockArrangement, ShapeView,
};
use crate::numeric::set_sum;
use crate::orientation::Orientation;
use crate::point::{reads_axis, Axis3D, PointView};

verus! {

/// The least of three values.
pub open spec fn min3(a: int, b: int, c: int) -> int {
    if a <= b && a <= c {
        a
    } else if b <= c {
        b
    } else {
        c
    }
}

/// The greatest of three values.
pub open spec fn max3(a: int, b: int, c: int) -> int {
    if a >= b && a >= c {
        a
    } else if b >= c {
        b
    } else {
        c
    }
}

/// The middle of three values.
pub open spec fn mid3(a: int, b: int, c: int) -> int {
    a + b + c - min3(a, b, c) - max3(a, b, c)
}

/// A hash-like value for a shape: the block count, a fixed-precision
/// density, and the fixed-precision per-axis alignments sorted ascending.
/// It is a pure function of the shape's content, used to bucket candidate
/// duplicates before exact comparison.
#[derive(Debug, Copy, Clone, PartialEq, Eq, Structural, Hash)]
pub struct BlockHash {
    pub num_blocks: u8,
    /// A measure for how close the blocks lie to the centroid anchor.
    pub density: u64,
    /// The three axis alignments, sorted ascending for consistency.
    pub align_low: u64,
    pub align_mid: u64,
    pub align_high: u64,
}

/// The fingerprint that a view produces.
pub open spec fn fingerprint_of(v: ShapeView) -> BlockHash {
    let ax = alignment_scaled_of(v.cells, Axis3D::X);
    let ay = alignment_scaled_of(v.cells, Axis3D::Y);
    let az = alignment_scaled_of(v.cells, Axis3D::Z);
    BlockHash {
        num_blocks: v.count() as u8,
        density: density_scaled_of(v.cells) as u64,
        align_low: min3(ax, ay, az) as u64,
        align_mid: mid3(ax, ay, az) as u64,
        align_high: max3(ax, ay, az) as u64,
    }
}

impl BlockHash {
    /// The fingerprint of an arrangement.
    pub fn from(ba: &BlockArrangement) -> (r: BlockHash)
        ensures
            r == fingerprint_of(ba@),
            view_wf(ba@),
    {
        let n = ba.num_blocks();
        let d = ba.density();
        let (ax, ay, az) = ba.axis_alignments();
        let mut a = ax;
        let mut b = ay;
        let mut c = az;
        if a > b {
            let t = a;
            a = b;
            b = t;
        }
        if b > c {
            let t = b;
            b = c;
            c = t;
        }
        if a > b {
            let t = a;
            a = b;
            b = t;
        }
        proof {
            assert(a == min3(ax as int, ay as int, az as int));
            assert(c == max3(ax as int, ay as int, az as int));
            assert(b == mid3(ax as int, ay as int, az as int));
        }
        BlockHash { num_blocks: n, density: d, align_low: a, align_mid: b, align_high: c }
    }

    pub fn num_blocks(&self) -> (r: u8)
        ensures
            r == self.num_blocks,
    {
        self.num_blocks
    }

    pub fn density(&self) -> (r: u64)
        ensures
            r == self.density,
    {
        self.density
    }

    /// The sorted axis alignments, ascending.
    pub fn axis_alignments(&self) -> (r: (u64, u64, u64))
        ensures
            r == (self.align_low, self.align_mid, self.align_high),
    {
        (self.align_low, self.align_mid, self.align_high)
    }
}

/// One alignment of the image of a set of cells is an alignment of the set
/// itself, along the axis the orientation reads.
#[verifier::rlimit(100)]
#[verifier::spinoff_prover]
proof fn lemma_image_alignment(s: Set<PointView>, o: Orientation, a2: Axis3D) -> (a1: Axis3D)
    requires
        s.finite(),
        s.len() >= 1,
    ensures
        reads_axis(o, a2, a1),
        alignment_scaled_of(oriented_image(s, o), a2) == alignment_scaled_of(s, a1),
{
    let a1 = crate::point::lemma_axis_correspondence(o, a2);
    lemma_oriented_image_props(s, o);
    let n = s.len() as int;
    let ss = cells_sum(s);
    let sw = cells_sum(oriented_image(s, o));
    let f = |q: PointView| crate::block_arrangement::iabs(scaled_rel(q, ss, n).coord(a1));
    let g = |p: PointView| crate::block_arrangement::iabs(scaled_rel(p, sw, n).coord(a2));
    assert forall|q: PointView| #[trigger] s.contains(q) implies g(q.applied(o)) == f(q) by {
        let x = scaled_rel(q, ss, n);
        assert(x == q.scaled(n).minus(ss));
        crate::point::lemma_applied_linear(q.scaled(n), ss, n, o);
        crate::point::lemma_applied_linear(q, ss, n, o);
        assert(scaled_rel(q.applied(o), sw, n) == x.applied(o));
        assert(x.applied(o).coord(a2) == x.coord(a1) || x.applied(o).coord(a2) == -x.coord(a1));
    }
    lemma_set_sum_image(s, o, f, g);
    a1
}

/// The density of the image of a set of cells is the density of the set.
#[verifier::rlimit(100)]
#[verifier::spinoff_prover]
proof fn lemma_image_density(s: Set<PointView>, o: Orientation)
    requires
        s.finite(),
        s.len() >= 1,
    ensures
        density_scaled_of(oriented_image(s, o)) == density_scaled_of(s),
{
    lemma_oriented_image_props(s, o);
    let n = s.len() as int;
    let ss = cells_sum(s);
    let sw = cells_sum(oriented_image(s, o));
    let f = |q: PointView|
        crate::numeric::sqrt_floor(
            scaled_rel(q, ss, n).sq_norm() * (fixed_scale() * fixed_scale()),
        );
    let g = |p: PointView|
        crate::numeric::sqrt_floor(
            scaled_rel(p, sw, n).sq_norm() * (fixed_scale() * fixed_scale()),
        );
    assert forall|q: PointView| #[trigger] s.contains(q) implies g(q.applied(o)) == f(q) by {
        let x = scaled_rel(q, ss, n);
        assert(x == q.scaled(n).minus(ss));
        crate::point::lemma_applied_linear(q.scaled(n), ss, n, o);
        crate::point::lemma_applied_linear(q, ss, n, o);
        assert(scaled_rel(q.applied(o), sw, n) == x.applied(o));
        crate::point::lemma_applied_norm(x, o);
    }
    lemma_set_sum_image(s, o, f, g);
}

/// Seeing a set of cells through any orientation leaves its fingerprint
/// statistics unchanged: the density is equal and the three alignments are
/// the original ones, redistributed over the axes.
#[verifier::rlimit(100)]
#[verifier::spinoff_prover]
proof fn lemma_image_stats(s: Set<PointView>, o: Orientation)
    requires
        s.finite(),
        s.len() >= 1,
    ensures
        oriented_image(s, o).finite(),
        oriented_image(s, o).len() == s.len(),
        density_scaled_of(oriented_image(s, o)) == density_scaled_of(s),
        ({
            let ax = alignment_scaled_of(s, Axis3D::X);
            let ay = alignment_scaled_of(s, Axis3D::Y);
            let az = alignment_scaled_of(s, Axis3D::Z);
            let bx = alignment_scaled_of(oriented_image(s, o), Axis3D::X);
            let by = alignment_scaled_of(oriented_image(s, o), Axis3D::Y);
            let bz = alignment_scaled_of(oriented_image(s, o), Axis3D::Z);
            &&& min3(bx, by, bz) == min3(ax, ay, az)
            &&& mid3(bx, by, bz) == mid3(ax, ay, az)
            &&& max3(bx, by, bz) == max3(ax, ay, az)
        }),
{
    lemma_oriented_image_props(s, o);
    lemma_image_density(s, o);
    let sx = lemma_image_alignment(s, o, Axis3D::X);
    let sy = lemma_image_alignment(s, o, Axis3D::Y);
    let sz = lemma_image_alignment(s, o, Axis3D::Z);
    crate::point::lemma_axis_correspondence_injective(o, Axis3D::X, Axis3D::Y, sx);
    crate::point::lemma_axis_correspondence_injective(o, Axis3D::X, Axis3D::Z, sx);
    crate::point::lemma_axis_correspondence_injective(o, Axis3D::Y, Axis3D::Z, sy);
    assert(sx != sy && sx != sz && sy != sz);
}

/// Replacing a shape's orientation never changes its fingerprint: the
/// reoriented view fingerprints identically to the original.  Together
/// with the reorientation-equality law this states that equal shapes seen
/// through different orientations always fall into the same bucket.
pub proof fn lemma_reoriented_fingerprint(v: ShapeView, o: Orientation)
    requires
        view_wf(v),
    ensures
        fingerprint_of(reoriented(v, o)) == fingerprint_of(v),
{
    let stg = v.storage_cells();
    lemma_storage_image_len(v.cells, v.orientation);
    assert(stg =~= Set::new(|q: PointView| v.cells.contains(q.applied(v.orientation))));
    assert(stg.finite() && stg.len() == v.cells.len());
    assert forall|p: PointView|
        oriented_image(stg, v.orientation).contains(p) <==> v.cells.contains(p) by {
        crate::point::lemma_unapply_then_apply(p, v.orientation);
    }
    assert(oriented_image(stg, v.orientation) =~= v.cells);
    lemma_image_stats(stg, v.orientation);
    lemma_image_stats(stg, o);
}

/// A matching orientation carries the centroid-relative cells of the first
/// shape onto those of the second, one to one; sums of matching per-cell
/// values then agree.
#[verifier::rlimit(100)]
#[verifier::spinoff_prover]
proof fn lemma_match_sum(
    a: ShapeView,
    b: ShapeView,
    o: Orientation,
    fv: spec_fn(PointView) -> int,
    gv: spec_fn(PointView) -> int,
)
    requires
        view_wf(a),
        view_wf(b),
        a.count() == b.count(),
        shape_matches_under(a, b, o),
        forall|x: PointView| gv(#[trigger] x.applied(o)) == fv(x),
    ensures
        set_sum(
            b.cells,
            |t: PointView| gv(scaled_rel(t, cells_sum(b.cells), a.count() as int)),
        ) == set_sum(
            a.storage_cells(),
            |q: PointView| fv(scaled_rel(q, cells_sum(a.storage_cells()), a.count() as int)),
        ),
{
    let n = a.count() as int;
    let stg = a.storage_cells();
    lemma_storage_image_len(a.cells, a.orientation);
    assert(stg =~= Set::new(|q: PointView| a.cells.contains(q.applied(a.orientation))));
    assert(stg.finite() && stg.len() == a.cells.len());
    let sa = cells_sum(stg);
    let sb = cells_sum(b.cells);
    let h = |q: PointView|
        choose|t: PointView|
            #[trigger] b.cells.contains(t) && scaled_rel(t, sb, n) == scaled_rel(
                q,
                sa,
                n,
            ).applied(o);
    assert forall|q: PointView| #[trigger] stg.contains(q) implies (b.cells.contains(h(q))
        && scaled_rel(h(q), sb, n) == scaled_rel(q, sa, n).applied(o)) by {
        assert(scaled_occupied(b.cells, sb, n, scaled_rel(q, sa, n).applied(o)));
    }
    assert forall|q1: PointView, q2: PointView|
        stg.contains(q1) && stg.contains(q2) && #[trigger] h(q1) == #[trigger] h(
            q2,
        ) implies q1 == q2 by {
        let x1 = scaled_rel(q1, sa, n);
        let x2 = scaled_rel(q2, sa, n);
        assert(x1.applied(o) == x2.applied(o));
        crate::point::lemma_apply_then_unapply(x1, o);
        crate::point::lemma_apply_then_unapply(x2, o);
        assert(x1 == x2);
        assert(q1.x == q2.x && q1.y == q2.y && q1.z == q2.z) by (nonlinear_arith)
            requires
                n >= 1,
                n * q1.x - sa.x == n * q2.x - sa.x,
                n * q1.y - sa.y == n * q2.y - sa.y,
                n * q1.z - sa.z == n * q2.z - sa.z,
        ;
    }
    let f = |q: PointView| fv(scaled_rel(q, sa, n));
    let g = |t: PointView| gv(scaled_rel(t, sb, n));
    assert forall|q: PointView| #[trigger] stg.contains(q) implies g(h(q)) == f(q) by {
        assert(scaled_rel(h(q), sb, n) == scaled_rel(q, sa, n).applied(o));
        assert(gv(scaled_rel(q, sa, n).applied(o)) == fv(scaled_rel(q, sa, n)));
    }
    crate::numeric::lemma_set_sum_map(stg, h, f, g);
    assert forall|t: PointView|
        crate::numeric::map_image(stg, h).contains(t) implies b.cells.contains(t) by {
        let q = choose|q: PointView| #[trigger] stg.contains(q) && h(q) == t;
    }
    assert(crate::numeric::map_image(stg, h).len() == b.cells.len());
    crate::numeric::lemma_subset_equal_len(crate::numeric::map_image(stg, h), b.cells);
    assert(set_sum(b.cells, g) == set_sum(stg, f));
}

/// Shapes that the orientation-searched equality identifies always produce
/// the same fingerprint: the bucketing never separates equal shapes.
#[verifier::rlimit(100)]
#[verifier::spinoff_prover]
pub proof fn lemma_equal_shapes_equal_fingerprints(a: ShapeView, b: ShapeView)
    requires
        view_wf(a),
        view_wf(b),
        shapes_equal(a, b),
    ensures
        fingerprint_of(a) == fingerprint_of(b),
{
    let n = a.count() as int;
    let stg = a.storage_cells();
    lemma_storage_image_len(a.cells, a.orientation);
    assert(stg =~= Set::new(|q: PointView| a.cells.contains(q.applied(a.orientation))));
    assert(stg.finite() && stg.len() == a.cells.len());
    assert forall|p: PointView|
        oriented_image(stg, a.orientation).contains(p) <==> a.cells.contains(p) by {
        crate::point::lemma_unapply_then_apply(p, a.orientation);
    }
    assert(oriented_image(stg, a.orientation) =~= a.cells);
    lemma_image_stats(stg, a.orientation);
    let o = choose|o: Orientation| #[trigger] shape_matches_under(a, b, o);
    let sa = cells_sum(stg);
    let sb = cells_sum(b.cells);
    // density carries over: distances are preserved
    let dv = |x: PointView|
        crate::numeric::sqrt_floor(x.sq_norm() * (fixed_scale() * fixed_scale()));
    assert forall|x: PointView| dv(#[trigger] x.applied(o)) == dv(x) by {
        crate::point::lemma_applied_norm(x, o);
    }
    lemma_match_sum(a, b, o, dv, dv);
    assert(set_sum(
        b.cells,
        |p: PointView|
            crate::numeric::sqrt_floor(
                scaled_rel(p, sb, n).sq_norm() * (fixed_scale() * fixed_scale()),
            ),
    ) == set_sum(b.cells, |t: PointView| dv(scaled_rel(t, sb, n)))) by {
        assert((|p: PointView|
            crate::numeric::sqrt_floor(
                scaled_rel(p, sb, n).sq_norm() * (fixed_scale() * fixed_scale()),
            )) =~= (|t: PointView| dv(scaled_rel(t, sb, n))));
    }
    assert(set_sum(
        stg,
        |p: PointView|
            crate::numeric::sqrt_floor(
                scaled_rel(p, sa, n).sq_norm() * (fixed_scale() * fixed_scale()),
            ),
    ) == set_sum(stg, |q: PointView| dv(scaled_rel(q, sa, n)))) by {
        assert((|p: PointView|
            crate::numeric::sqrt_floor(
                scaled_rel(p, sa, n).sq_norm() * (fixed_scale() * fixed_scale()),
            )) =~= (|q: PointView| dv(scaled_rel(q, sa, n))));
    }
    assert(density_scaled_of(b.cells) == density_scaled_of(stg));
    // each alignment of the second shape is an alignment of the first
    let sx = lemma_match_alignment(a, b, o, Axis3D::X);
    let sy = lemma_match_alignment(a, b, o, Axis3D::Y);
    let sz = lemma_match_alignment(a, b, o, Axis3D::Z);
    crate::point::lemma_axis_correspondence_injective(o, Axis3D::X, Axis3D::Y, sx);
    crate::point::lemma_axis_correspondence_injective(o, Axis3D::X, Axis3D::Z, sx);
    crate::point::lemma_axis_correspondence_injective(o, Axis3D::Y, Axis3D::Z, sy);
    assert(sx != sy && sx != sz && sy != sz);
}

/// One alignment of the second shape of a matching pair is an alignment of
/// the first shape's storage cells, along the axis the matching
/// orientation reads.
#[verifier::rlimit(100)]
#[verifier::spinoff_prover]
proof fn lemma_match_alignment(a: ShapeView, b: ShapeView, o: Orientation, a2: Axis3D) -> (a1:
    Axis3D)
    requires
        view_wf(a),
        view_wf(b),
        a.count() == b.count(),
        shape_matches_under(a, b, o),
    ensures
        reads_axis(o, a2, a1),
        alignment_scaled_of(b.cells, a2) == alignment_scaled_of(a.storage_cells(), a1),
{
    let n = a.count() as int;
    let stg = a.storage_cells();
    lemma_storage_image_len(a.cells, a.orientation);
    assert(stg =~= Set::new(|q: PointView| a.cells.contains(q.applied(a.orientation))));
    let sa = cells_sum(stg);
    let sb = cells_sum(b.cells);
    let a1 = crate::point::lemma_axis_correspondence(o, a2);
    let fv = |x: PointView| crate::block_arrangement::iabs(x.coord(a1));
    let gv = |x: PointView| crate::block_arrangement::iabs(x.coord(a2));
    assert forall|x: PointView| gv(#[trigger] x.applied(o)) == fv(x) by {
        assert(x.applied(o).coord(a2) == x.coord(a1) || x.applied(o).coord(a2) == -x.coord(a1));
    }
    lemma_match_sum(a, b, o, fv, gv);
    assert(set_sum(
        b.cells,
        |p: PointView| crate::block_arrangement::iabs(scaled_rel(p, sb, n).coord(a2)),
    ) == set_sum(b.cells, |t: PointView| gv(scaled_rel(t, sb, n)))) by {
        assert((|p: PointView| crate::block_arrangement::iabs(scaled_rel(p, sb, n).coord(a2)))
            =~= (|t: PointView| gv(scaled_rel(t, sb, n))));
    }
    assert(set_sum(
        stg,
        |p: PointView| crate::block_arrangement::iabs(scaled_rel(p, sa, n).coord(a1)),
    ) == set_sum(stg, |q: PointView| fv(scaled_rel(q, sa, n)))) by {
        assert((|p: PointView| crate::block_arrangement::iabs(scaled_rel(p, sa, n).coord(a1)))
            =~= (|q: PointView| fv(scaled_rel(q, sa, n))));
    }
    assert(stg.len() == b.cells.len());
    a1
}

} // verus!