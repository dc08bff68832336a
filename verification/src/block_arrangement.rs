pub mod block_variation;

use vstd::prelude::*;
use crate::bitset::{bits_get, bits_insert, bits_len, bits_of, bits_with_capacity};
use crate::mapper::Mapper;
use crate::numeric::{lemma_set_sum_insert, lemma_tdiv_bound, set_sum, tdiv, tdiv_i64};
use crate::orientation::Orientation;
use crate::point::{
    lemma_applied_bounded, lemma_identity_orientation, Axis3D, Finite3DDimension, Point3D,
    PointView,
};
use fixedbitset::FixedBitSet;

verus! {

/// The reason a block cannot be placed.
#[derive(Debug, PartialEq, Eq, Structural)]
pub enum PlacementError {
    NotAdjacentToBlock,
}

/// The cell that storage index `i` holds, as seen under the mapper's
/// orientation.
pub open spec fn cell_of(m: Mapper, i: int) -> PointView {
    m.spec_storage_point(i).applied(m.orientation)
}

/// The cells of the first `n` storage indices whose bits are set.
pub open spec fn cells_upto(bits: Seq<bool>, m: Mapper, n: int) -> Set<PointView>
    decreases n,
{
    if n <= 0 {
        Set::empty()
    } else if bits[n - 1] {
        cells_upto(bits, m, n - 1).insert(cell_of(m, n - 1))
    } else {
        cells_upto(bits, m, n - 1)
    }
}

/// How many of the first `n` bits are set.
pub open spec fn count_upto(bits: Seq<bool>, n: int) -> int
    decreases n,
{
    if n <= 0 {
        0
    } else {
        count_upto(bits, n - 1) + if bits[n - 1] {
            1int
        } else {
            0int
        }
    }
}

/// The componentwise integer-truncated mean of a set of cells.
pub open spec fn centroid_of(cells: Set<PointView>) -> PointView {
    let n = cells.len() as int;
    PointView {
        x: tdiv(set_sum(cells, |p: PointView| p.x), n),
        y: tdiv(set_sum(cells, |p: PointView| p.y), n),
        z: tdiv(set_sum(cells, |p: PointView| p.z), n),
    }
}

/// The magnitude of an integer.
pub open spec fn iabs(a: int) -> int {
    if a < 0 {
        -a
    } else {
        a
    }
}

/// Fixed-precision quantities carry five decimal places: a value is stored
/// as this many ten-thousandths of a thousandth.
pub open spec fn fixed_scale() -> int {
    100000
}

/// The componentwise sum of a set of cells; dividing by the cell count
/// gives the exact centroid.
pub open spec fn cells_sum(cells: Set<PointView>) -> PointView {
    PointView {
        x: set_sum(cells, |p: PointView| p.x),
        y: set_sum(cells, |p: PointView| p.y),
        z: set_sum(cells, |p: PointView| p.z),
    }
}

/// A cell's offset from the exact centroid of a shape with cell sum `s` and
/// block count `n`, with every coordinate scaled by `n` so that the
/// arithmetic stays in integers.
pub open spec fn scaled_rel(q: PointView, s: PointView, n: int) -> PointView {
    PointView { x: n * q.x - s.x, y: n * q.y - s.y, z: n * q.z - s.z }
}

/// The density of a shape, scaled to five decimal places: the mean distance
/// of the cells to the exact centroid.  Each distance is the integer square
/// root of the scaled squared distance, and the mean rounds halves away
/// from zero.
pub open spec fn density_scaled_of(cells: Set<PointView>) -> int {
    let n = cells.len() as int;
    let s = cells_sum(cells);
    crate::numeric::round_div(
        set_sum(
            cells,
            |p: PointView|
                crate::numeric::sqrt_floor(
                    scaled_rel(p, s, n).sq_norm() * (fixed_scale() * fixed_scale()),
                ),
        ),
        n * n,
    )
}

/// The alignment of a shape along one axis, scaled to five decimal places:
/// the mean magnitude of the coordinate along that axis relative to the
/// exact centroid.  A straight line along the axis scores zero.
pub open spec fn alignment_scaled_of(cells: Set<PointView>, axis: crate::point::Axis3D) -> int {
    let n = cells.len() as int;
    let s = cells_sum(cells);
    crate::numeric::round_div(
        set_sum(cells, |p: PointView| iabs(scaled_rel(p, s, n).coord(axis))) * fixed_scale(),
        n * n,
    )
}

/// The view an arrangement takes after a block is placed at `q`: the cell
/// becomes occupied, the box grows if `q` lay outside it, and the centroid
/// anchor is recomputed.
pub open spec fn extended_view(v: ShapeView, q: PointView) -> ShapeView {
    let cells2 = v.cells.insert(q);
    ShapeView {
        cells: cells2,
        center: centroid_of(cells2),
        orientation: v.orientation,
        dim: if v.dim.contains(q.unapplied(v.orientation)) {
            v.dim
        } else {
            grown_dim(v.dim, q.unapplied(v.orientation))
        },
    }
}

/// The cells of a set as seen through `o`: the image of the set under the
/// orientation's action.
pub open spec fn oriented_image(s: Set<PointView>, o: Orientation) -> Set<PointView> {
    Set::new(|p: PointView| s.contains(p.unapplied(o)))
}

/// The view an arrangement takes after its orientation is replaced by `o`:
/// the storage cells are seen through `o`, and the centroid anchor is
/// recomputed over the newly visible cells.
pub open spec fn reoriented(v: ShapeView, o: Orientation) -> ShapeView {
    let cells2 = oriented_image(v.storage_cells(), o);
    ShapeView { cells: cells2, center: centroid_of(cells2), orientation: o, dim: v.dim }
}

/// The six face-adjacent unit offsets.
pub open spec fn neighbor_offset_view(k: int) -> PointView {
    if k == 0 {
        PointView { x: 0, y: 0, z: -1 }
    } else if k == 1 {
        PointView { x: 0, y: 0, z: 1 }
    } else if k == 2 {
        PointView { x: 0, y: -1, z: 0 }
    } else if k == 3 {
        PointView { x: 0, y: 1, z: 0 }
    } else if k == 4 {
        PointView { x: -1, y: 0, z: 0 }
    } else {
        PointView { x: 1, y: 0, z: 0 }
    }
}

/// Whether some occupied cell shares a face with `p`.
pub open spec fn has_neighbor_spec(cells: Set<PointView>, p: PointView) -> bool {
    exists|k: int| 0 <= k < 6 && cells.contains(p.plus(neighbor_offset_view(k)))
}

/// The scaled centroid-relative offset `w` names an occupied cell of a
/// shape with cell sum `s` and block count `n`.
pub open spec fn scaled_occupied(cells: Set<PointView>, s: PointView, n: int, w: PointView) -> bool {
    exists|t: PointView| #[trigger] cells.contains(t) && scaled_rel(t, s, n) == w
}

/// Orientation `o` maps every storage cell of `a`, taken relative to the
/// exact centroid, onto an occupied centroid-relative cell of `b`.
pub open spec fn shape_matches_under(a: ShapeView, b: ShapeView, o: Orientation) -> bool {
    forall|q: PointView|
        #[trigger] a.storage_cells().contains(q) ==> scaled_occupied(
            b.cells,
            cells_sum(b.cells),
            a.count() as int,
            scaled_rel(q, cells_sum(a.storage_cells()), a.count() as int).applied(o),
        )
}

/// The orientation-invariant notion of sameness: equal block counts, and at
/// least one of the enumerable orientations maps every cell of the first
/// shape onto an occupied cell of the second.
pub open spec fn shapes_equal(a: ShapeView, b: ShapeView) -> bool {
    a.count() == b.count() && exists|o: Orientation| #[trigger] shape_matches_under(a, b, o)
}

/// A set of cells is in a finite box, so it is finite.
pub proof fn lemma_cells_upto_finite(bits: Seq<bool>, m: Mapper, n: int)
    ensures
        cells_upto(bits, m, n).finite(),
    decreases n,
{
    if n > 0 {
        lemma_cells_upto_finite(bits, m, n - 1);
    }
}

/// A point is among the first `n` cells exactly when one of the first `n`
/// set bits stores it.
pub proof fn lemma_cells_upto_characterize(bits: Seq<bool>, m: Mapper, n: int)
    ensures
        forall|p: PointView|
            #[trigger] cells_upto(bits, m, n).contains(p) <==> exists|i: int|
                0 <= i < n && bits[i] && #[trigger] cell_of(m, i) == p,
    decreases n,
{
    if n > 0 {
        lemma_cells_upto_characterize(bits, m, n - 1);
        assert forall|p: PointView| #[trigger] cells_upto(bits, m, n).contains(p) implies exists|
            i: int,
        | 0 <= i < n && bits[i] && #[trigger] cell_of(m, i) == p by {
            if bits[n - 1] && p == cell_of(m, n - 1) {
                assert(0 <= n - 1 < n && bits[n - 1] && cell_of(m, n - 1) == p);
            } else {
                assert(cells_upto(bits, m, n - 1).contains(p));
                let i = choose|i: int| 0 <= i < n - 1 && bits[i] && #[trigger] cell_of(m, i) == p;
                assert(0 <= i < n && bits[i] && cell_of(m, i) == p);
            }
        }
        assert forall|p: PointView|
            (exists|i: int| 0 <= i < n && bits[i] && #[trigger] cell_of(m, i) == p) implies #[trigger] cells_upto(
            bits,
            m,
            n,
        ).contains(p) by {
            let i = choose|i: int| 0 <= i < n && bits[i] && #[trigger] cell_of(m, i) == p;
            if i <= n - 2 {
                assert(exists|j: int| 0 <= j < n - 1 && bits[j] && #[trigger] cell_of(m, j) == p);
                assert(cells_upto(bits, m, n - 1).contains(p));
            }
        }
    }
}

/// Distinct storage indices hold distinct cells.
pub proof fn lemma_cell_of_injective(m: Mapper, i: int, j: int)
    requires
        m.wf(),
        0 <= i < m.dimension.spec_size(),
        0 <= j < m.dimension.spec_size(),
        cell_of(m, i) == cell_of(m, j),
    ensures
        i == j,
{
    m.lemma_storage_point_of_index_roundtrip(i);
    m.lemma_storage_point_of_index_roundtrip(j);
    crate::point::lemma_apply_then_unapply(m.spec_storage_point(i), m.orientation);
    crate::point::lemma_apply_then_unapply(m.spec_storage_point(j), m.orientation);
}

/// The number of cells equals the number of set bits.
pub proof fn lemma_cells_upto_len(bits: Seq<bool>, m: Mapper, n: int)
    requires
        m.wf(),
        bits.len() == m.dimension.spec_size(),
        n <= bits.len(),
    ensures
        cells_upto(bits, m, n).len() == count_upto(bits, n),
        count_upto(bits, n) >= 0,
    decreases n,
{
    lemma_cells_upto_finite(bits, m, n);
    if n > 0 {
        lemma_cells_upto_len(bits, m, n - 1);
        lemma_cells_upto_finite(bits, m, n - 1);
        if bits[n - 1] {
            let c = cell_of(m, n - 1);
            assert(!cells_upto(bits, m, n - 1).contains(c)) by {
                lemma_cells_upto_characterize(bits, m, n - 1);
                if cells_upto(bits, m, n - 1).contains(c) {
                    let i = choose|i: int| 0 <= i < n - 1 && bits[i] && #[trigger] cell_of(m, i)
                        == c;
                    lemma_cell_of_injective(m, i, n - 1);
                }
            }
        }
    }
}

/// Setting one bit inserts its cell.
pub proof fn lemma_cells_upto_update(bits: Seq<bool>, m: Mapper, n: int, j: int)
    requires
        0 <= j < n <= bits.len(),
    ensures
        cells_upto(bits.update(j, true), m, n) == cells_upto(bits, m, n).insert(cell_of(m, j)),
    decreases n,
{
    lemma_cells_upto_characterize(bits, m, n);
    lemma_cells_upto_characterize(bits.update(j, true), m, n);
    assert forall|p: PointView|
        cells_upto(bits.update(j, true), m, n).contains(p) <==> cells_upto(
            bits,
            m,
            n,
        ).insert(cell_of(m, j)).contains(p) by {
        if cells_upto(bits.update(j, true), m, n).contains(p) {
            let i = choose|i: int| 0 <= i < n && bits.update(j, true)[i] && #[trigger] cell_of(
                m,
                i,
            ) == p;
            if i != j {
                assert(bits[i]);
            }
        }
        if cells_upto(bits, m, n).insert(cell_of(m, j)).contains(p) {
            if p == cell_of(m, j) {
                assert(bits.update(j, true)[j]);
            } else {
                let i = choose|i: int| 0 <= i < n && bits[i] && #[trigger] cell_of(m, i) == p;
                assert(bits.update(j, true)[i]);
            }
        }
    }
    assert(cells_upto(bits.update(j, true), m, n) =~= cells_upto(bits, m, n).insert(
        cell_of(m, j),
    ));
}

/// Prefix counts only grow.
pub proof fn lemma_count_upto_monotone(bits: Seq<bool>, a: int, b: int)
    requires
        a <= b,
    ensures
        count_upto(bits, a) <= count_upto(bits, b),
    decreases b - a,
{
    if a < b {
        lemma_count_upto_monotone(bits, a, b - 1);
    }
}

/// Every stored cell lies inside the mapper's box, coordinate by
/// coordinate.
pub proof fn lemma_cells_upto_bounded(bits: Seq<bool>, m: Mapper, n: int, b: int)
    requires
        m.wf(),
        bits.len() == m.dimension.spec_size(),
        n <= bits.len(),
        crate::MAX_EXTENT <= b,
    ensures
        forall|p: PointView| cells_upto(bits, m, n).contains(p) ==> #[trigger] p.bounded(b),
{
    lemma_cells_upto_characterize(bits, m, n);
    assert forall|p: PointView| cells_upto(bits, m, n).contains(p) implies #[trigger] p.bounded(
        b,
    ) by {
        let i = choose|i: int| 0 <= i < n && bits[i] && #[trigger] cell_of(m, i) == p;
        m.lemma_storage_point_of_index_roundtrip(i);
        let q = m.spec_storage_point(i);
        assert(q.bounded(b));
        lemma_applied_bounded(q, m.orientation, b);
    }
}

/// How the bounding box grows to take in a new storage point: each reach
/// becomes the larger of the old reach and the point's offset.
pub open spec fn grown_dim(d: Finite3DDimension, q: PointView) -> Finite3DDimension {
    Finite3DDimension {
        x_pos: if q.x > d.x_pos {
            q.x as u32
        } else {
            d.x_pos
        },
        x_neg: if q.x < 0 && -q.x > d.x_neg {
            (-q.x) as u32
        } else {
            d.x_neg
        },
        y_pos: if q.y > d.y_pos {
            q.y as u32
        } else {
            d.y_pos
        },
        y_neg: if q.y < 0 && -q.y > d.y_neg {
            (-q.y) as u32
        } else {
            d.y_neg
        },
        z_pos: if q.z > d.z_pos {
            q.z as u32
        } else {
            d.z_pos
        },
        z_neg: if q.z < 0 && -q.z > d.z_neg {
            (-q.z) as u32
        } else {
            d.z_neg
        },
    }
}

/// The mathematical content of an arrangement: its occupied cells as seen
/// under the current orientation, the cached centroid, the orientation, and
/// the bounding box.
pub struct ShapeView {
    pub cells: Set<PointView>,
    pub center: PointView,
    pub orientation: Orientation,
    pub dim: Finite3DDimension,
}

impl ShapeView {
    /// The number of blocks.
    pub open spec fn count(self) -> nat {
        self.cells.len()
    }

    /// The occupied cells in storage coordinates, with the orientation
    /// undone; these never move when the orientation changes.
    pub open spec fn storage_cells(self) -> Set<PointView> {
        Set::new(|q: PointView| self.cells.contains(q.applied(self.orientation)))
    }
}

/// What every arrangement's view satisfies: the cell set is finite and
/// small, every cell lies inside the box, the block count is positive, and
/// the anchor is the centroid of the cells.
pub open spec fn view_wf(v: ShapeView) -> bool {
    &&& v.cells.finite()
    &&& 1 <= v.cells.len() <= 255
    &&& v.center == centroid_of(v.cells)
    &&& v.center.bounded(crate::MAX_EXTENT as int)
    &&& v.dim.wf()
    &&& forall|p: PointView|
        v.cells.contains(p) ==> #[trigger] p.bounded(crate::MAX_EXTENT as int)
    &&& forall|p: PointView| v.cells.contains(p) ==> v.dim.contains(#[trigger] p.unapplied(v.orientation))
}

/// The centroid of a nonempty set of cells that are all inside a bound is
/// itself inside the bound.
pub proof fn lemma_centroid_bounded(cells: Set<PointView>, b: int)
    requires
        cells.finite(),
        cells.len() >= 1,
        0 <= b,
        forall|p: PointView| cells.contains(p) ==> #[trigger] p.bounded(b),
    ensures
        centroid_of(cells).bounded(b),
{
    let n = cells.len() as int;
    assert forall|p: PointView| #[trigger] cells.contains(p) implies -b <= p.x <= b && -b <= p.y
        <= b && -b <= p.z <= b by {
        assert(p.bounded(b));
    }
    crate::numeric::lemma_set_sum_bound(cells, |p: PointView| p.x, -b, b);
    crate::numeric::lemma_set_sum_bound(cells, |p: PointView| p.y, -b, b);
    crate::numeric::lemma_set_sum_bound(cells, |p: PointView| p.z, -b, b);
    assert(n * -b == -(b * n) && n * b == b * n) by (nonlinear_arith);
    lemma_tdiv_bound(set_sum(cells, |p: PointView| p.x), n, b);
    lemma_tdiv_bound(set_sum(cells, |p: PointView| p.y), n, b);
    lemma_tdiv_bound(set_sum(cells, |p: PointView| p.z), n, b);
}

/// An arrangement of blocks joined at their faces, in a rotation- and
/// direction-less manner: a growable bit-indexed set of occupied lattice
/// cells with a maintained centroid anchor.
#[derive(Debug)]
pub struct BlockArrangement {
    /// The block placement, one bit per cell of the box.
    bitset: FixedBitSet,
    /// The number of blocks in this arrangement; always at least one.
    num_blocks: u8,
    /// The integer-truncated mean of the occupied cells.
    center_off_mass: Point3D,
    mapper: Mapper,
}

impl View for BlockArrangement {
    type V = ShapeView;

    closed spec fn view(&self) -> ShapeView {
        ShapeView {
            cells: self.spec_cells(),
            center: self.center_off_mass@,
            orientation: self.mapper.orientation,
            dim: self.mapper.dimension,
        }
    }
}

impl Clone for BlockArrangement {
    /// An exact copy, cell for cell.
    fn clone(&self) -> (r: Self)
        ensures
            r@ == self@,
            r@.count() == self@.count(),
    {
        proof {
            use_type_invariant(self);
        }
        BlockArrangement {
            bitset: self.bitset.clone(),
            num_blocks: self.num_blocks,
            center_off_mass: self.center_off_mass,
            mapper: self.mapper,
        }
    }
}

impl BlockArrangement {
    closed spec fn spec_cells(self) -> Set<PointView> {
        cells_upto(bits_of(self.bitset), self.mapper, bits_of(self.bitset).len() as int)
    }

    #[verifier::type_invariant]
    closed spec fn wf(self) -> bool {
        &&& self.mapper.wf()
        &&& bits_of(self.bitset).len() == self.mapper.dimension.spec_size()
        &&& self.num_blocks as int == count_upto(
            bits_of(self.bitset),
            bits_of(self.bitset).len() as int,
        )
        &&& self.num_blocks >= 1
        &&& self.center_off_mass@ == centroid_of(self.spec_cells())
    }

    proof fn lemma_wf_implies_view_wf(self)
        requires
            self.wf(),
        ensures
            view_wf(self@),
    {
        let bits = bits_of(self.bitset);
        let m = self.mapper;
        let len = bits.len() as int;
        lemma_cells_upto_finite(bits, m, len);
        lemma_cells_upto_len(bits, m, len);
        lemma_cells_upto_bounded(bits, m, len, crate::MAX_EXTENT as int);
        lemma_centroid_bounded(self.spec_cells(), crate::MAX_EXTENT as int);
        lemma_cells_upto_characterize(bits, m, len);
        assert forall|p: PointView| self@.cells.contains(p) implies self@.dim.contains(
            #[trigger] p.unapplied(self@.orientation),
        ) by {
            let i = choose|i: int| 0 <= i < len && bits[i] && #[trigger] cell_of(m, i) == p;
            m.lemma_storage_point_of_index_roundtrip(i);
            crate::point::lemma_apply_then_unapply(m.spec_storage_point(i), m.orientation);
        }
    }

    /// The componentwise coordinate sums of the cells that `bitset`
    /// stores, as seen under `mapper`.
    fn coord_sums(bitset: &FixedBitSet, mapper: Mapper, num_blocks: u8) -> (r: (i64, i64, i64))
        requires
            mapper.wf(),
            bits_of(*bitset).len() == mapper.dimension.spec_size(),
            num_blocks as int == count_upto(bits_of(*bitset), bits_of(*bitset).len() as int),
        ensures
            ({
                let cells = cells_upto(bits_of(*bitset), mapper, bits_of(*bitset).len() as int);
                &&& r.0 == set_sum(cells, |p: PointView| p.x)
                &&& r.1 == set_sum(cells, |p: PointView| p.y)
                &&& r.2 == set_sum(cells, |p: PointView| p.z)
                &&& -300 * (num_blocks as int) <= r.0 <= 300 * (num_blocks as int)
                &&& -300 * (num_blocks as int) <= r.1 <= 300 * (num_blocks as int)
                &&& -300 * (num_blocks as int) <= r.2 <= 300 * (num_blocks as int)
            }),
    {
        let ghost bits = bits_of(*bitset);
        let len: usize = bits_len(bitset);
        proof {
            lemma_cells_upto_len(bits, mapper, len as int);
            crate::numeric::lemma_set_sum_empty(|p: PointView| p.x);
            crate::numeric::lemma_set_sum_empty(|p: PointView| p.y);
            crate::numeric::lemma_set_sum_empty(|p: PointView| p.z);
        }
        let mut sx: i64 = 0;
        let mut sy: i64 = 0;
        let mut sz: i64 = 0;
        let mut i: usize = 0;
        while i < len
            invariant
                0 <= i <= len,
                len == bits.len(),
                bits == bits_of(*bitset),
                mapper.wf(),
                bits.len() == mapper.dimension.spec_size(),
                num_blocks as int == count_upto(bits, len as int),
                sx == set_sum(cells_upto(bits, mapper, i as int), |p: PointView| p.x),
                sy == set_sum(cells_upto(bits, mapper, i as int), |p: PointView| p.y),
                sz == set_sum(cells_upto(bits, mapper, i as int), |p: PointView| p.z),
                -300 * count_upto(bits, i as int) <= sx <= 300 * count_upto(bits, i as int),
                -300 * count_upto(bits, i as int) <= sy <= 300 * count_upto(bits, i as int),
                -300 * count_upto(bits, i as int) <= sz <= 300 * count_upto(bits, i as int),
                0 <= count_upto(bits, i as int) <= count_upto(bits, len as int) <= 255,
            decreases len - i,
        {
            let ghost pre = cells_upto(bits, mapper, i as int);
            let ghost cnt = count_upto(bits, i as int);
            if bits_get(bitset, i) {
                let p = mapper.resolve(i).unwrap();
                proof {
                    mapper.lemma_storage_point_of_index_roundtrip(i as int);
                    assert(p@ == cell_of(mapper, i as int));
                    lemma_applied_bounded(
                        mapper.spec_storage_point(i as int),
                        mapper.orientation,
                        300,
                    );
                    assert(p@.bounded(300));
                    lemma_cells_upto_characterize(bits, mapper, i as int);
                    if pre.contains(p@) {
                        let j = choose|j: int| 0 <= j < i && bits[j] && #[trigger] cell_of(
                            mapper,
                            j,
                        ) == p@;
                        lemma_cell_of_injective(mapper, j, i as int);
                    }
                    lemma_cells_upto_finite(bits, mapper, i as int);
                    lemma_set_sum_insert(pre, |p: PointView| p.x, p@);
                    lemma_set_sum_insert(pre, |p: PointView| p.y, p@);
                    lemma_set_sum_insert(pre, |p: PointView| p.z, p@);
                    lemma_count_upto_monotone(bits, i as int + 1, len as int);
                    assert(cells_upto(bits, mapper, i as int + 1) == pre.insert(p@));
                    assert(count_upto(bits, i as int + 1) == cnt + 1);
                }
                sx = sx + p.x() as i64;
                sy = sy + p.y() as i64;
                sz = sz + p.z() as i64;
            } else {
                proof {
                    assert(cells_upto(bits, mapper, i as int + 1) == pre);
                    assert(count_upto(bits, i as int + 1) == cnt);
                    lemma_count_upto_monotone(bits, i as int + 1, len as int);
                }
            }
            i = i + 1;
        }
        (sx, sy, sz)
    }

    /// The centroid of the cells that `bitset` stores, as seen under `m`.
    fn compute_centroid(bitset: &FixedBitSet, mapper: Mapper, num_blocks: u8) -> (r: Point3D)
        requires
            mapper.wf(),
            bits_of(*bitset).len() == mapper.dimension.spec_size(),
            num_blocks as int == count_upto(bits_of(*bitset), bits_of(*bitset).len() as int),
            num_blocks >= 1,
        ensures
            r@ == centroid_of(
                cells_upto(bits_of(*bitset), mapper, bits_of(*bitset).len() as int),
            ),
            r@.bounded(crate::MAX_EXTENT as int),
            r.in_range(),
    {
        let ghost bits = bits_of(*bitset);
        let (sx, sy, sz) = Self::coord_sums(bitset, mapper, num_blocks);
        proof {
            lemma_cells_upto_len(bits, mapper, bits.len() as int);
            lemma_tdiv_bound(sx as int, num_blocks as int, 300);
            lemma_tdiv_bound(sy as int, num_blocks as int, 300);
            lemma_tdiv_bound(sz as int, num_blocks as int, 300);
        }
        let n64: i64 = num_blocks as i64;
        let cx: i32 = tdiv_i64(sx, n64) as i32;
        let cy: i32 = tdiv_i64(sy, n64) as i32;
        let cz: i32 = tdiv_i64(sz, n64) as i32;
        Point3D::new(cx, cy, cz)
    }

    /// Builds an arrangement from finished parts, recomputing the centroid
    /// anchor from the occupied cells.
    fn assemble(bitset: FixedBitSet, num_blocks: u8, mapper: Mapper) -> (r: BlockArrangement)
        requires
            mapper.wf(),
            bits_of(bitset).len() == mapper.dimension.spec_size(),
            num_blocks as int == count_upto(bits_of(bitset), bits_of(bitset).len() as int),
            num_blocks >= 1,
        ensures
            r@.cells == cells_upto(bits_of(bitset), mapper, bits_of(bitset).len() as int),
            r@.orientation == mapper.orientation,
            r@.dim == mapper.dimension,
            r@.center == centroid_of(r@.cells),
            r@.count() == num_blocks,
            view_wf(r@),
    {
        let ghost bits = bits_of(bitset);
        let center = Self::compute_centroid(&bitset, mapper, num_blocks);
        let r = BlockArrangement { bitset, num_blocks, center_off_mass: center, mapper };
        proof {
            lemma_cells_upto_len(bits, mapper, bits.len() as int);
            r.lemma_wf_implies_view_wf();
        }
        r
    }

    /// An arrangement with a single block at the origin, inside a box that
    /// reaches `cap` cells away from the origin along every signed axis
    /// direction.
    pub fn with_capacity(cap: usize) -> (r: Self)
        requires
            cap <= crate::MAX_EXTENT as usize,
        ensures
            r@.cells == Set::<PointView>::empty().insert(PointView { x: 0, y: 0, z: 0 }),
            r@.count() == 1,
            r@.center == (PointView { x: 0, y: 0, z: 0 }),
            r@.orientation == Orientation::identity(),
            r@.dim == (Finite3DDimension {
                x_pos: cap as u32,
                x_neg: cap as u32,
                y_pos: cap as u32,
                y_neg: cap as u32,
                z_pos: cap as u32,
                z_neg: cap as u32,
            }),
            view_wf(r@),
    {
        let c: u32 = cap as u32;
        let dim = Finite3DDimension::new(c, c, c, c, c, c);
        let m = Mapper::new(dim);
        let size: u32 = dim.size();
        let mut bits = bits_with_capacity(size as usize);
        let origin = Point3D::new(0, 0, 0);
        proof {
            lemma_identity_orientation(origin@);
            assert(dim.contains(origin@));
        }
        let idx = m.unresolve(origin).unwrap();
        let ghost bits0 = bits_of(bits);
        proof {
            m.lemma_index_of_storage_point_roundtrip(origin@);
            assert(cell_of(m, idx as int) == origin@) by {
                lemma_identity_orientation(m.spec_storage_point(idx as int));
            }
            lemma_cells_upto_characterize(bits0, m, size as int);
            assert(cells_upto(bits0, m, size as int) =~= Set::empty());
            lemma_cells_upto_len(bits0, m, size as int);
            lemma_cells_upto_update(bits0, m, size as int, idx as int);
        }
        bits_insert(&mut bits, idx);
        proof {
            let bits1 = bits_of(bits);
            lemma_cells_upto_len(bits1, m, size as int);
            assert(cells_upto(bits1, m, size as int) == Set::<PointView>::empty().insert(
                origin@,
            ));
            crate::numeric::lemma_set_sum_empty(|p: PointView| p.x);
            crate::numeric::lemma_set_sum_empty(|p: PointView| p.y);
            crate::numeric::lemma_set_sum_empty(|p: PointView| p.z);
            crate::numeric::lemma_set_sum_insert(Set::empty(), |p: PointView| p.x, origin@);
            crate::numeric::lemma_set_sum_insert(Set::empty(), |p: PointView| p.y, origin@);
            crate::numeric::lemma_set_sum_insert(Set::empty(), |p: PointView| p.z, origin@);
        }
        Self::assemble(bits, 1, m)
    }

    /// An arrangement with one block at the origin and a box that covers
    /// just the origin.
    pub fn new() -> (r: Self)
        ensures
            r@.cells == Set::<PointView>::empty().insert(PointView { x: 0, y: 0, z: 0 }),
            r@.count() == 1,
            r@.center == (PointView { x: 0, y: 0, z: 0 }),
            r@.orientation == Orientation::identity(),
            r@.dim == (Finite3DDimension { x_pos: 0, x_neg: 0, y_pos: 0, y_neg: 0, z_pos: 0, z_neg: 0 }),
            view_wf(r@),
    {
        Self::with_capacity(0)
    }

    /// The number of blocks in this arrangement.
    pub fn num_blocks(&self) -> (r: u8)
        ensures
            r == self@.count(),
            1 <= r,
            view_wf(self@),
    {
        proof {
            use_type_invariant(self);
            lemma_cells_upto_len(
                bits_of(self.bitset),
                self.mapper,
                bits_of(self.bitset).len() as int,
            );
            self.lemma_wf_implies_view_wf();
        }
        self.num_blocks
    }

    /// The centroid anchor: the integer-truncated componentwise mean of the
    /// occupied cells.
    pub fn center_of_mass(&self) -> (r: Point3D)
        ensures
            r@ == self@.center,
            r@ == centroid_of(self@.cells),
            view_wf(self@),
    {
        proof {
            use_type_invariant(self);
            self.lemma_wf_implies_view_wf();
        }
        self.center_off_mass
    }

    /// The bounding box of this arrangement.
    pub fn dimension(&self) -> (r: Finite3DDimension)
        ensures
            r == self@.dim,
    {
        self.mapper.dimension
    }

    /// The orientation through which the cells are currently seen.
    pub fn orientation(&self) -> (r: Orientation)
        ensures
            r == self@.orientation,
    {
        self.mapper.orientation
    }

    /// Whether the cell at `point` is occupied.
    pub fn is_set(&self, point: &Point3D) -> (r: bool)
        requires
            point.in_range(),
        ensures
            r == self@.cells.contains(point@),
    {
        proof {
            use_type_invariant(self);
        }
        let ghost bits = bits_of(self.bitset);
        let ghost m = self.mapper;
        let ghost len = bits.len() as int;
        match self.mapper.unresolve(*point) {
            Some(index) => {
                let b = bits_get(&self.bitset, index);
                proof {
                    let q = point@.unapplied(m.orientation);
                    m.lemma_index_of_storage_point_roundtrip(q);
                    crate::point::lemma_unapply_then_apply(point@, m.orientation);
                    assert(cell_of(m, index as int) == point@);
                    lemma_cells_upto_characterize(bits, m, len);
                    if self@.cells.contains(point@) {
                        let j = choose|j: int| 0 <= j < len && bits[j] && #[trigger] cell_of(
                            m,
                            j,
                        ) == point@;
                        lemma_cell_of_injective(m, j, index as int);
                    }
                }
                b
            },
            None => {
                proof {
                    lemma_cells_upto_characterize(bits, m, len);
                    if self@.cells.contains(point@) {
                        let j = choose|j: int| 0 <= j < len && bits[j] && #[trigger] cell_of(
                            m,
                            j,
                        ) == point@;
                        m.lemma_storage_point_of_index_roundtrip(j);
                        crate::point::lemma_apply_then_unapply(
                            m.spec_storage_point(j),
                            m.orientation,
                        );
                    }
                }
                false
            },
        }
    }

    /// One of the six face-adjacent unit offsets.
    pub fn neighbor_offset_pub(k: usize) -> (r: Point3D)
        requires
            k < 6,
        ensures
            r@ == neighbor_offset_view(k as int),
            r@.bounded(1),
    {
        match k {
            0 => Point3D::new(0, 0, -1),
            1 => Point3D::new(0, 0, 1),
            2 => Point3D::new(0, -1, 0),
            3 => Point3D::new(0, 1, 0),
            4 => Point3D::new(-1, 0, 0),
            _ => Point3D::new(1, 0, 0),
        }
    }

    /// Whether any of the six face-adjacent cells of `point` is occupied.
    pub fn has_neighbors(&self, point: &Point3D) -> (r: bool)
        requires
            point@.bounded(0x4000_0000),
        ensures
            r == has_neighbor_spec(self@.cells, point@),
    {
        let mut k: usize = 0;
        let mut found = false;
        while k < 6
            invariant
                0 <= k <= 6,
                point@.bounded(0x4000_0000),
                found <==> exists|j: int|
                    0 <= j < k && self@.cells.contains(point@.plus(#[trigger] neighbor_offset_view(j))),
            decreases 6 - k,
        {
            let off = Self::neighbor_offset_pub(k);
            let q = point.add(off);
            if self.is_set(&q) {
                proof {
                    assert(self@.cells.contains(point@.plus(neighbor_offset_view(k as int))));
                }
                found = true;
            }
            k = k + 1;
        }
        found
    }

    /// Places a block at `point`.  Fails, and changes nothing, when `point`
    /// touches no occupied cell face-to-face.  On success the cell becomes
    /// occupied — growing the box if `point` lies outside it — the block
    /// count rises exactly when the cell was free, and the centroid anchor
    /// is recomputed.
    #[verifier::rlimit(100)]
    pub fn add_block_at(&mut self, point: &Point3D) -> (r: Result<(), PlacementError>)
        requires
            point@.bounded(crate::MAX_EXTENT as int),
            old(self)@.count() < 255,
        ensures
            r is Ok <==> has_neighbor_spec(old(self)@.cells, point@),
            r is Err ==> *final(self) == *old(self) && r == Err::<(), PlacementError>(
                PlacementError::NotAdjacentToBlock,
            ),
            r is Ok ==> final(self)@.cells == old(self)@.cells.insert(point@),
            r is Ok ==> final(self)@.count() == old(self)@.count() + (if old(
                self,
            )@.cells.contains(point@) {
                0int
            } else {
                1int
            }),
            r is Ok ==> final(self)@.orientation == old(self)@.orientation,
            r is Ok ==> final(self)@.center == centroid_of(final(self)@.cells),
            r is Ok ==> final(self)@.dim == (if old(self)@.dim.contains(
                point@.unapplied(old(self)@.orientation),
            ) {
                old(self)@.dim
            } else {
                grown_dim(old(self)@.dim, point@.unapplied(old(self)@.orientation))
            }),
            r is Ok ==> view_wf(final(self)@),
            r is Ok ==> final(self)@ == extended_view(old(self)@, point@),
    {
        proof {
            use_type_invariant(&*self);
        }
        if !self.has_neighbors(point) {
            return Err(PlacementError::NotAdjacentToBlock);
        }
        let ghost oldm = self.mapper;
        let ghost oldbits = bits_of(self.bitset);
        let ghost len = oldbits.len() as int;
        proof {
            lemma_cells_upto_len(oldbits, oldm, len);
        }
        match self.mapper.unresolve(*point) {
            Some(index) => {
                let was = bits_get(&self.bitset, index);
                let mut nb = self.bitset.clone();
                bits_insert(&mut nb, index);
                let num2: u8 = if was {
                    self.num_blocks
                } else {
                    self.num_blocks + 1
                };
                proof {
                    let q = point@.unapplied(oldm.orientation);
                    oldm.lemma_index_of_storage_point_roundtrip(q);
                    crate::point::lemma_unapply_then_apply(point@, oldm.orientation);
                    assert(cell_of(oldm, index as int) == point@);
                    lemma_cells_upto_characterize(oldbits, oldm, len);
                    if old(self)@.cells.contains(point@) {
                        let j = choose|j: int| 0 <= j < len && oldbits[j] && #[trigger] cell_of(
                            oldm,
                            j,
                        ) == point@;
                        lemma_cell_of_injective(oldm, j, index as int);
                    }
                    assert(was <==> old(self)@.cells.contains(point@));
                    lemma_cells_upto_update(oldbits, oldm, len, index as int);
                    lemma_cells_upto_len(bits_of(nb), oldm, len);
                    lemma_cells_upto_finite(oldbits, oldm, len);
                }
                let m = self.mapper;
                *self = Self::assemble(nb, num2, m);
                Ok(())
            },
            None => {
                let mut qp = *point;
                qp.apply_inverse_orientation(&self.mapper.orientation);
                proof {
                    crate::point::lemma_applied_bounded(
                        point@,
                        oldm.orientation,
                        crate::MAX_EXTENT as int,
                    );
                }
                let d = self.mapper.dimension;
                let x_pos: u32 = if (qp.x as i64) > (d.x_pos as i64) {
                    qp.x as u32
                } else {
                    d.x_pos
                };
                let x_neg: u32 = if (-(qp.x as i64)) > (d.x_neg as i64) {
                    (-qp.x) as u32
                } else {
                    d.x_neg
                };
                let y_pos: u32 = if (qp.y as i64) > (d.y_pos as i64) {
                    qp.y as u32
                } else {
                    d.y_pos
                };
                let y_neg: u32 = if (-(qp.y as i64)) > (d.y_neg as i64) {
                    (-qp.y) as u32
                } else {
                    d.y_neg
                };
                let z_pos: u32 = if (qp.z as i64) > (d.z_pos as i64) {
                    qp.z as u32
                } else {
                    d.z_pos
                };
                let z_neg: u32 = if (-(qp.z as i64)) > (d.z_neg as i64) {
                    (-qp.z) as u32
                } else {
                    d.z_neg
                };
                let dim2 = Finite3DDimension::new(x_pos, x_neg, y_pos, y_neg, z_pos, z_neg);
                proof {
                    assert(dim2 == grown_dim(d, qp@));
                    assert(dim2.wf());
                    assert(dim2.contains(qp@));
                    assert(forall|u: PointView|
                        d.contains(u) ==> #[trigger] dim2.contains(u));
                }
                let m2 = Mapper { dimension: dim2, orientation: self.mapper.orientation };
                let size2: u32 = dim2.size();
                let mut nb = bits_with_capacity(size2 as usize);
                let old_len: usize = bits_len(&self.bitset);
                let mut i: usize = 0;
                proof {
                    lemma_cells_upto_characterize(bits_of(nb), m2, size2 as int);
                    assert(cells_upto(bits_of(nb), m2, size2 as int) =~= Set::empty());
                    lemma_cells_upto_len(bits_of(nb), m2, size2 as int);
                }
                while i < old_len
                    invariant
                        0 <= i <= old_len,
                        old_len == oldbits.len(),
                        oldbits == bits_of(self.bitset),
                        oldm == self.mapper,
                        oldm.wf(),
                        oldbits.len() == oldm.dimension.spec_size(),
                        m2.wf(),
                        m2.orientation == oldm.orientation,
                        size2 == m2.dimension.spec_size(),
                        forall|u: PointView|
                            oldm.dimension.contains(u) ==> #[trigger] m2.dimension.contains(u),
                        bits_of(nb).len() == size2 as int,
                        cells_upto(bits_of(nb), m2, size2 as int) == cells_upto(
                            oldbits,
                            oldm,
                            i as int,
                        ),
                        count_upto(bits_of(nb), size2 as int) == count_upto(oldbits, i as int),
                    decreases old_len - i,
                {
                    if bits_get(&self.bitset, i) {
                        let p = self.mapper.resolve(i).unwrap();
                        proof {
                            oldm.lemma_storage_point_of_index_roundtrip(i as int);
                            let sp = oldm.spec_storage_point(i as int);
                            crate::point::lemma_apply_then_unapply(sp, oldm.orientation);
                            assert(m2.dimension.contains(sp));
                        }
                        let j = m2.unresolve(p).unwrap();
                        proof {
                            let sp = oldm.spec_storage_point(i as int);
                            m2.lemma_index_of_storage_point_roundtrip(sp);
                            crate::point::lemma_unapply_then_apply(p@, m2.orientation);
                            assert(cell_of(m2, j as int) == p@);
                            assert(p@ == cell_of(oldm, i as int));
                            lemma_cells_upto_characterize(oldbits, oldm, i as int);
                            if cells_upto(oldbits, oldm, i as int).contains(p@) {
                                let jj = choose|jj: int|
                                    0 <= jj < i && oldbits[jj] && #[trigger] cell_of(oldm, jj)
                                        == p@;
                                lemma_cell_of_injective(oldm, jj, i as int);
                            }
                            lemma_cells_upto_characterize(bits_of(nb), m2, size2 as int);
                            assert(!bits_of(nb)[j as int]) by {
                                if bits_of(nb)[j as int] {
                                    assert(cells_upto(bits_of(nb), m2, size2 as int).contains(
                                        cell_of(m2, j as int),
                                    ));
                                }
                            }
                            lemma_cells_upto_update(bits_of(nb), m2, size2 as int, j as int);
                            lemma_cells_upto_len(bits_of(nb), m2, size2 as int);
                            lemma_cells_upto_len(
                                bits_of(nb).update(j as int, true),
                                m2,
                                size2 as int,
                            );
                            lemma_cells_upto_finite(bits_of(nb), m2, size2 as int);
                        }
                        bits_insert(&mut nb, j);
                    }
                    i = i + 1;
                }
                proof {
                    // the new point is not yet among the cells
                    lemma_cells_upto_characterize(oldbits, oldm, len);
                    if old(self)@.cells.contains(point@) {
                        let j = choose|j: int| 0 <= j < len && oldbits[j] && #[trigger] cell_of(
                            oldm,
                            j,
                        ) == point@;
                        oldm.lemma_storage_point_of_index_roundtrip(j);
                        crate::point::lemma_apply_then_unapply(
                            oldm.spec_storage_point(j),
                            oldm.orientation,
                        );
                    }
                    assert(!old(self)@.cells.contains(point@));
                }
                let index2 = m2.unresolve(*point).unwrap();
                proof {
                    let q = point@.unapplied(m2.orientation);
                    m2.lemma_index_of_storage_point_roundtrip(q);
                    crate::point::lemma_unapply_then_apply(point@, m2.orientation);
                    assert(cell_of(m2, index2 as int) == point@);
                    lemma_cells_upto_characterize(bits_of(nb), m2, size2 as int);
                    assert(!bits_of(nb)[index2 as int]) by {
                        if bits_of(nb)[index2 as int] {
                            assert(cells_upto(bits_of(nb), m2, size2 as int).contains(
                                cell_of(m2, index2 as int),
                            ));
                        }
                    }
                    lemma_cells_upto_update(bits_of(nb), m2, size2 as int, index2 as int);
                    lemma_cells_upto_len(bits_of(nb), m2, size2 as int);
                    lemma_cells_upto_len(bits_of(nb).update(index2 as int, true), m2, size2 as int);
                    lemma_cells_upto_finite(bits_of(nb), m2, size2 as int);
                }
                bits_insert(&mut nb, index2);
                let num2: u8 = self.num_blocks + 1;
                *self = Self::assemble(nb, num2, m2);
                Ok(())
            },
        }
    }

    /// Replaces the orientation through which the cells are seen and
    /// recomputes the centroid anchor.  The underlying storage never moves:
    /// the cells in storage coordinates stay exactly the same.
    pub fn set_orientation(&mut self, orientation: Orientation)
        ensures
            final(self)@ == reoriented(old(self)@, orientation),
            final(self)@.orientation == orientation,
            final(self)@.dim == old(self)@.dim,
            final(self)@.storage_cells() == old(self)@.storage_cells(),
            final(self)@.count() == old(self)@.count(),
            final(self)@.center == centroid_of(final(self)@.cells),
            view_wf(final(self)@),
    {
        proof {
            use_type_invariant(&*self);
        }
        let ghost oldm = self.mapper;
        let ghost bits = bits_of(self.bitset);
        let ghost len = bits.len() as int;
        let nb = self.bitset.clone();
        let m2 = Mapper { dimension: self.mapper.dimension, orientation };
        let num = self.num_blocks;
        proof {
            lemma_cells_upto_len(bits, oldm, len);
            lemma_cells_upto_len(bits, m2, len);
        }
        *self = Self::assemble(nb, num, m2);
        proof {
            lemma_storage_unmoved(bits, oldm, m2, len);
            assert(self@.storage_cells() =~= old(self)@.storage_cells());
            let v2 = reoriented(old(self)@, orientation);
            assert forall|p: PointView| self@.cells.contains(p) <==> v2.cells.contains(p) by {
                crate::point::lemma_unapply_then_apply(p, orientation);
                assert(old(self)@.storage_cells().contains(p.unapplied(orientation))
                    <==> self@.storage_cells().contains(p.unapplied(orientation)));
            }
            assert(self@.cells =~= v2.cells);
            assert(self@ == v2);
        }
    }

    /// The cells that `bitset` stores, as seen under `m`, as a list without
    /// duplicates.
    fn cells_vec(bitset: &FixedBitSet, m: Mapper) -> (r: Vec<Point3D>)
        requires
            m.wf(),
            bits_of(*bitset).len() == m.dimension.spec_size(),
        ensures
            r@.len() == cells_upto(bits_of(*bitset), m, bits_of(*bitset).len() as int).len(),
            forall|k: int|
                0 <= k < r@.len() ==> cells_upto(
                    bits_of(*bitset),
                    m,
                    bits_of(*bitset).len() as int,
                ).contains((#[trigger] r@[k])@),
            forall|p: PointView|
                #[trigger] cells_upto(bits_of(*bitset), m, bits_of(*bitset).len() as int).contains(
                    p,
                ) ==> exists|k: int| 0 <= k < r@.len() && (#[trigger] r@[k])@ == p,
            forall|k1: int, k2: int| 0 <= k1 < k2 < r@.len() ==> r@[k1] != r@[k2],
            forall|k: int|
                0 <= k < r@.len() ==> (#[trigger] r@[k])@.bounded(crate::MAX_EXTENT as int)
                    && r@[k].in_range(),
    {
        let ghost bits = bits_of(*bitset);
        let len: usize = bits_len(bitset);
        let mut out: Vec<Point3D> = Vec::new();
        let mut i: usize = 0;
        proof {
            lemma_cells_upto_len(bits, m, len as int);
        }
        while i < len
            invariant
                0 <= i <= len,
                len == bits.len(),
                bits == bits_of(*bitset),
                m.wf(),
                bits.len() == m.dimension.spec_size(),
                out@.len() == count_upto(bits, i as int),
                forall|k: int|
                    0 <= k < out@.len() ==> cells_upto(bits, m, i as int).contains(
                        (#[trigger] out@[k])@,
                    ),
                forall|p: PointView|
                    #[trigger] cells_upto(bits, m, i as int).contains(p) ==> exists|k: int|
                        0 <= k < out@.len() && (#[trigger] out@[k])@ == p,
                forall|k1: int, k2: int| 0 <= k1 < k2 < out@.len() ==> out@[k1] != out@[k2],
                forall|k: int|
                    0 <= k < out@.len() ==> (#[trigger] out@[k])@.bounded(crate::MAX_EXTENT as int)
                        && out@[k].in_range(),
            decreases len - i,
        {
            let ghost pre = cells_upto(bits, m, i as int);
            if bits_get(bitset, i) {
                let p = m.resolve(i).unwrap();
                proof {
                    m.lemma_storage_point_of_index_roundtrip(i as int);
                    assert(p@ == cell_of(m, i as int));
                    lemma_applied_bounded(
                        m.spec_storage_point(i as int),
                        m.orientation,
                        crate::MAX_EXTENT as int,
                    );
                    lemma_cells_upto_characterize(bits, m, i as int);
                    if pre.contains(p@) {
                        let j = choose|j: int| 0 <= j < i && bits[j] && #[trigger] cell_of(m, j)
                            == p@;
                        lemma_cell_of_injective(m, j, i as int);
                    }
                }
                let ghost out0 = out@;
                out.push(p);
                proof {
                    assert(cells_upto(bits, m, i as int + 1) == pre.insert(p@));
                    assert forall|p2: PointView|
                        #[trigger] cells_upto(bits, m, i as int + 1).contains(p2) implies exists|
                        k: int,
                    | 0 <= k < out@.len() && (#[trigger] out@[k])@ == p2 by {
                        if p2 == p@ {
                            assert(out@[out@.len() - 1]@ == p2);
                        } else {
                            assert(pre.contains(p2));
                            let k = choose|k: int|
                                0 <= k < out0.len() && (#[trigger] out0[k])@ == p2;
                            assert(out@[k]@ == p2);
                        }
                    }
                }
            }
            i = i + 1;
        }
        proof {
            lemma_cells_upto_len(bits, m, len as int);
        }
        out
    }

    /// The occupied cells, as seen under the current orientation.
    pub fn block_iter(&self) -> (r: Vec<Point3D>)
        ensures
            r@.len() == self@.count(),
            forall|k: int| 0 <= k < r@.len() ==> self@.cells.contains((#[trigger] r@[k])@),
            forall|p: PointView|
                #[trigger] self@.cells.contains(p) ==> exists|k: int|
                    0 <= k < r@.len() && (#[trigger] r@[k])@ == p,
            forall|k1: int, k2: int| 0 <= k1 < k2 < r@.len() ==> r@[k1] != r@[k2],
            forall|k: int|
                0 <= k < r@.len() ==> (#[trigger] r@[k])@.bounded(crate::MAX_EXTENT as int)
                    && r@[k].in_range(),
    {
        proof {
            use_type_invariant(self);
        }
        Self::cells_vec(&self.bitset, self.mapper)
    }

    /// The occupied cells, offset so that the centroid anchor becomes the
    /// origin.
    pub fn center_mass_iter(&self) -> (r: Vec<Point3D>)
        ensures
            r@.len() == self@.count(),
            forall|k: int|
                0 <= k < r@.len() ==> self@.cells.contains(
                    (#[trigger] r@[k])@.plus(self@.center),
                ),
            forall|p: PointView|
                #[trigger] self@.cells.contains(p) ==> exists|k: int|
                    0 <= k < r@.len() && (#[trigger] r@[k])@ == p.minus(self@.center),
            forall|k: int| 0 <= k < r@.len() ==> (#[trigger] r@[k])@.bounded(601),
    {
        let c = self.center_of_mass();
        let cells = self.block_iter();
        let mut out: Vec<Point3D> = Vec::new();
        let mut k: usize = 0;
        while k < cells.len()
            invariant
                0 <= k <= cells@.len(),
                c@ == self@.center,
                c@.bounded(crate::MAX_EXTENT as int),
                forall|j: int|
                    0 <= j < cells@.len() ==> self@.cells.contains((#[trigger] cells@[j])@),
                forall|p: PointView|
                    #[trigger] self@.cells.contains(p) ==> exists|j: int|
                        0 <= j < cells@.len() && (#[trigger] cells@[j])@ == p,
                forall|j: int|
                    0 <= j < cells@.len() ==> (#[trigger] cells@[j])@.bounded(
                        crate::MAX_EXTENT as int,
                    ),
                out@.len() == k,
                forall|j: int| 0 <= j < k ==> (#[trigger] out@[j])@ == cells@[j]@.minus(c@),
                forall|j: int| 0 <= j < k ==> (#[trigger] out@[j])@.bounded(601),
            decreases cells@.len() - k,
        {
            let p = cells[k].sub(c);
            out.push(p);
            k = k + 1;
        }
        proof {
            assert(out@.len() == cells@.len());
            assert forall|p: PointView| #[trigger] self@.cells.contains(p) implies exists|j: int|
                0 <= j < out@.len() && (#[trigger] out@[j])@ == p.minus(self@.center) by {
                let j = choose|j: int| 0 <= j < cells@.len() && (#[trigger] cells@[j])@ == p;
                assert(out@[j]@ == p.minus(self@.center));
            }
            assert forall|k2: int| 0 <= k2 < out@.len() implies self@.cells.contains(
                (#[trigger] out@[k2])@.plus(self@.center),
            ) by {
                assert(out@[k2]@.plus(self@.center) == cells@[k2]@);
            }
        }
        out
    }

    /// The density of the arrangement, scaled to five decimal places: the
    /// mean distance of the occupied cells to the exact centroid.
    pub fn density(&self) -> (r: u64)
        ensures
            r == density_scaled_of(self@.cells),
            view_wf(self@),
    {
        proof {
            use_type_invariant(self);
            self.lemma_wf_implies_view_wf();
        }
        let ghost bits = bits_of(self.bitset);
        let ghost m = self.mapper;
        let ghost sv = cells_sum(self@.cells);
        let ghost nv = self@.cells.len() as int;
        let ghost f = |p: PointView|
            crate::numeric::sqrt_floor(
                scaled_rel(p, sv, nv).sq_norm() * (fixed_scale() * fixed_scale()),
            );
        let (sx, sy, sz) = Self::coord_sums(&self.bitset, self.mapper, self.num_blocks);
        let n64: i64 = self.num_blocks as i64;
        let len: usize = bits_len(&self.bitset);
        let mut acc: u64 = 0;
        let mut i: usize = 0;
        proof {
            lemma_cells_upto_len(bits, m, len as int);
            crate::numeric::lemma_set_sum_empty(f);
        }
        while i < len
            invariant
                0 <= i <= len,
                len == bits.len(),
                bits == bits_of(self.bitset),
                m == self.mapper,
                m.wf(),
                bits.len() == m.dimension.spec_size(),
                sv == cells_sum(self@.cells),
                nv == self@.cells.len() as int,
                1 <= n64 == self.num_blocks as int == nv <= 255,
                sx == sv.x && sy == sv.y && sz == sv.z,
                -76500 <= sx <= 76500 && -76500 <= sy <= 76500 && -76500 <= sz <= 76500,
                f == (|p: PointView|
                    crate::numeric::sqrt_floor(
                        scaled_rel(p, sv, nv).sq_norm() * (fixed_scale() * fixed_scale()),
                    )),
                acc == set_sum(cells_upto(bits, m, i as int), f),
                0 <= acc <= 27000000000 * count_upto(bits, i as int),
                0 <= count_upto(bits, i as int) <= count_upto(bits, len as int) <= 255,
            decreases len - i,
        {
            let ghost pre = cells_upto(bits, m, i as int);
            let ghost cnt = count_upto(bits, i as int);
            if bits_get(&self.bitset, i) {
                let p = self.mapper.resolve(i).unwrap();
                proof {
                    m.lemma_storage_point_of_index_roundtrip(i as int);
                    assert(p@ == cell_of(m, i as int));
                    lemma_applied_bounded(
                        m.spec_storage_point(i as int),
                        m.orientation,
                        crate::MAX_EXTENT as int,
                    );
                    lemma_cells_upto_characterize(bits, m, i as int);
                    if pre.contains(p@) {
                        let j = choose|j: int| 0 <= j < i && bits[j] && #[trigger] cell_of(m, j)
                            == p@;
                        lemma_cell_of_injective(m, j, i as int);
                    }
                    lemma_cells_upto_finite(bits, m, i as int);
                    lemma_set_sum_insert(pre, f, p@);
                    lemma_count_upto_monotone(bits, i as int + 1, len as int);
                    assert(cells_upto(bits, m, i as int + 1) == pre.insert(p@));
                    assert(count_upto(bits, i as int + 1) == cnt + 1);
                }
                proof {
                    assert(p@.bounded(300));
                    assert(-76500 <= n64 * (p@.x) <= 76500 && -76500 <= n64 * (p@.y) <= 76500
                        && -76500 <= n64 * (p@.z) <= 76500) by (nonlinear_arith)
                        requires
                            1 <= n64 <= 255,
                            p@.bounded(300),
                    ;
                }
                let dx: i64 = n64 * (p.x() as i64) - sx;
                let dy: i64 = n64 * (p.y() as i64) - sy;
                let dz: i64 = n64 * (p.z() as i64) - sz;
                proof {
                    assert(0 <= dx * dx <= 153000 * 153000 && 0 <= dy * dy <= 153000 * 153000 && 0
                        <= dz * dz <= 153000 * 153000) by (nonlinear_arith)
                        requires
                            -153000 <= dx <= 153000,
                            -153000 <= dy <= 153000,
                            -153000 <= dz <= 153000,
                    ;
                }
                let d2: u64 = (dx * dx + dy * dy + dz * dz) as u64;
                let sq_wide: u128 = crate::numeric::isqrt_u128(d2 as u128 * 10000000000);
                proof {
                    crate::numeric::lemma_sqrt_floor_bounds(d2 as int * 10000000000);
                    let sf = crate::numeric::sqrt_floor(d2 as int * 10000000000);
                    assert(sf < 27000000000) by (nonlinear_arith)
                        requires
                            0 <= sf,
                            sf * sf <= d2 as int * 10000000000,
                            d2 as int * 10000000000 <= 3 * 153000 * 153000 * 10000000000,
                    ;
                    assert(f(p@) == sf);
                }
                let sq: u64 = sq_wide as u64;
                acc = acc + sq;
            } else {
                proof {
                    assert(cells_upto(bits, m, i as int + 1) == pre);
                    lemma_count_upto_monotone(bits, i as int + 1, len as int);
                }
            }
            i = i + 1;
        }
        proof {
            lemma_cells_upto_len(bits, m, len as int);
            assert(acc <= 27000000000 * 255) by (nonlinear_arith)
                requires
                    0 <= acc <= 27000000000 * count_upto(bits, len as int),
                    count_upto(bits, len as int) <= 255,
            ;
            assert(1 <= n64 * n64 <= 255 * 255) by (nonlinear_arith)
                requires
                    1 <= n64 <= 255,
            ;
        }
        let nn: u64 = (n64 * n64) as u64;
        crate::numeric::round_div_u64(acc, nn)
    }

    /// The alignment of the arrangement along `axis`, scaled to five
    /// decimal places: the mean magnitude of the coordinate along that
    /// axis, relative to the exact centroid.
    fn axis_alignment(&self, axis: Axis3D) -> (r: u64)
        ensures
            r == alignment_scaled_of(self@.cells, axis),
    {
        proof {
            use_type_invariant(self);
            self.lemma_wf_implies_view_wf();
        }
        let ghost bits = bits_of(self.bitset);
        let ghost m = self.mapper;
        let ghost sv = cells_sum(self@.cells);
        let ghost nv = self@.cells.len() as int;
        let ghost f = |p: PointView| iabs(scaled_rel(p, sv, nv).coord(axis));
        let (sx, sy, sz) = Self::coord_sums(&self.bitset, self.mapper, self.num_blocks);
        let n64: i64 = self.num_blocks as i64;
        let len: usize = bits_len(&self.bitset);
        let mut acc: u64 = 0;
        let mut i: usize = 0;
        proof {
            lemma_cells_upto_len(bits, m, len as int);
            crate::numeric::lemma_set_sum_empty(f);
        }
        while i < len
            invariant
                0 <= i <= len,
                len == bits.len(),
                bits == bits_of(self.bitset),
                m == self.mapper,
                m.wf(),
                bits.len() == m.dimension.spec_size(),
                sv == cells_sum(self@.cells),
                nv == self@.cells.len() as int,
                1 <= n64 == self.num_blocks as int == nv <= 255,
                sx == sv.x && sy == sv.y && sz == sv.z,
                -76500 <= sx <= 76500 && -76500 <= sy <= 76500 && -76500 <= sz <= 76500,
                f == (|p: PointView| iabs(scaled_rel(p, sv, nv).coord(axis))),
                acc == set_sum(cells_upto(bits, m, i as int), f),
                0 <= acc <= 153000 * count_upto(bits, i as int),
                0 <= count_upto(bits, i as int) <= count_upto(bits, len as int) <= 255,
            decreases len - i,
        {
            let ghost pre = cells_upto(bits, m, i as int);
            let ghost cnt = count_upto(bits, i as int);
            if bits_get(&self.bitset, i) {
                let p = self.mapper.resolve(i).unwrap();
                proof {
                    m.lemma_storage_point_of_index_roundtrip(i as int);
                    assert(p@ == cell_of(m, i as int));
                    lemma_applied_bounded(
                        m.spec_storage_point(i as int),
                        m.orientation,
                        crate::MAX_EXTENT as int,
                    );
                    lemma_cells_upto_characterize(bits, m, i as int);
                    if pre.contains(p@) {
                        let j = choose|j: int| 0 <= j < i && bits[j] && #[trigger] cell_of(m, j)
                            == p@;
                        lemma_cell_of_injective(m, j, i as int);
                    }
                    lemma_cells_upto_finite(bits, m, i as int);
                    lemma_set_sum_insert(pre, f, p@);
                    lemma_count_upto_monotone(bits, i as int + 1, len as int);
                    assert(cells_upto(bits, m, i as int + 1) == pre.insert(p@));
                    assert(count_upto(bits, i as int + 1) == cnt + 1);
                    assert(-76500 <= n64 * (p@.x) <= 76500 && -76500 <= n64 * (p@.y) <= 76500
                        && -76500 <= n64 * (p@.z) <= 76500) by (nonlinear_arith)
                        requires
                            1 <= n64 <= 255,
                            p@.bounded(300),
                    ;
                }
                let coord: i64 = match axis {
                    Axis3D::X => n64 * (p.x() as i64) - sx,
                    Axis3D::Y => n64 * (p.y() as i64) - sy,
                    Axis3D::Z => n64 * (p.z() as i64) - sz,
                };
                let mag: u64 = if coord < 0 {
                    (-coord) as u64
                } else {
                    coord as u64
                };
                proof {
                    assert(mag == f(p@));
                }
                acc = acc + mag;
            } else {
                proof {
                    assert(cells_upto(bits, m, i as int + 1) == pre);
                    lemma_count_upto_monotone(bits, i as int + 1, len as int);
                }
            }
            i = i + 1;
        }
        proof {
            lemma_cells_upto_len(bits, m, len as int);
            assert(acc <= 153000 * 255) by (nonlinear_arith)
                requires
                    0 <= acc <= 153000 * count_upto(bits, len as int),
                    count_upto(bits, len as int) <= 255,
            ;
            assert(1 <= n64 * n64 <= 255 * 255) by (nonlinear_arith)
                requires
                    1 <= n64 <= 255,
            ;
        }
        let nn: u64 = (n64 * n64) as u64;
        crate::numeric::round_div_u64(acc * 100000, nn)
    }

    /// The alignments along the three axes, in the order x, y, z.
    pub fn axis_alignments(&self) -> (r: (u64, u64, u64))
        ensures
            r.0 == alignment_scaled_of(self@.cells, Axis3D::X),
            r.1 == alignment_scaled_of(self@.cells, Axis3D::Y),
            r.2 == alignment_scaled_of(self@.cells, Axis3D::Z),
            view_wf(self@),
    {
        proof {
            use_type_invariant(self);
            self.lemma_wf_implies_view_wf();
        }
        (
            self.axis_alignment(Axis3D::X),
            self.axis_alignment(Axis3D::Y),
            self.axis_alignment(Axis3D::Z),
        )
    }

    /// Whether the cell at `point`, taken relative to the centroid anchor,
    /// is occupied.
    pub fn is_set_relative_to_center_of_mass(&self, point: &Point3D) -> (r: bool)
        requires
            point@.bounded(0x4000_0000),
        ensures
            r == self@.cells.contains(point@.plus(self@.center)),
    {
        proof {
            use_type_invariant(&*self);
            self.lemma_wf_implies_view_wf();
        }
        let q = point.add(self.center_off_mass);
        self.is_set(&q)
    }
}

/// The cell occupancy of a view, one byte per storage index: one where the
/// stored cell is occupied, zero where it is free.
#[verifier::opaque]
pub open spec fn cell_bytes(v: ShapeView) -> Seq<u8> {
    let m = Mapper { dimension: v.dim, orientation: v.orientation };
    Seq::new(
        v.dim.spec_size() as nat,
        |i: int|
            if v.cells.contains(cell_of(m, i)) {
                1u8
            } else {
                0u8
            },
    )
}

/// The byte string of an arrangement: its box, its orientation, and one
/// byte per cell of the box.
pub open spec fn arr_bytes(v: ShapeView) -> Seq<u8> {
    crate::codec::dim_bytes(v.dim) + crate::codec::orient_bytes(v.orientation) + cell_bytes(v)
}

/// The bytes from `pos` on are exactly the encoding of the valid view `v`.
#[verifier::opaque]
pub open spec fn encodes_at(b: Seq<u8>, pos: int, v: ShapeView) -> bool {
    &&& view_wf(v)
    &&& pos >= 0
    &&& pos + arr_bytes(v).len() <= b.len()
    &&& b.subrange(pos, pos + arr_bytes(v).len()) == arr_bytes(v)
}

impl BlockArrangement {
    /// Appends the byte string of this arrangement; `decode` reads it back.
    pub fn encode(&self, out: &mut Vec<u8>)
        ensures
            final(out)@ == old(out)@ + arr_bytes(self@),
            view_wf(self@),
            encodes_at(final(out)@, old(out)@.len() as int, self@),
    {
        proof {
            use_type_invariant(self);
            self.lemma_wf_implies_view_wf();
        }
        let ghost bits = bits_of(self.bitset);
        let ghost m = self.mapper;
        let ghost len = bits.len() as int;
        proof {
            reveal(cell_bytes);
            lemma_cells_upto_characterize(bits, m, len);
            assert forall|j: int| 0 <= j < len implies (bits[j] <==> self@.cells.contains(
                #[trigger] cell_of(m, j),
            )) by {
                if self@.cells.contains(cell_of(m, j)) {
                    let j2 = choose|j2: int|
                        0 <= j2 < len && bits[j2] && #[trigger] cell_of(m, j2) == cell_of(m, j);
                    lemma_cell_of_injective(m, j2, j);
                }
            }
        }
        proof {
            reveal(cell_bytes);
            assert(cell_bytes(self@).len() == bits.len());
            assert forall|j: int| 0 <= j < len implies cell_bytes(self@)[j] == (if bits[j] {
                1u8
            } else {
                0u8
            }) by {}
        }
        crate::codec::push_dim(out, self.mapper.dimension);
        crate::codec::push_orientation(out, self.mapper.orientation);
        let ghost base = out@;
        let size: usize = bits_len(&self.bitset);
        let mut i: usize = 0;
        while i < size
            invariant
                0 <= i <= size,
                size == bits.len(),
                bits == bits_of(self.bitset),
                m == self.mapper,
                self@.dim == m.dimension,
                self@.orientation == m.orientation,
                cell_bytes(self@).len() == size,
                forall|j: int|
                    0 <= j < size ==> cell_bytes(self@)[j] == (if bits[j] {
                        1u8
                    } else {
                        0u8
                    }),
                out@ == base + cell_bytes(self@).take(i as int),
            decreases size - i,
        {
            let bit = bits_get(&self.bitset, i);
            out.push(
                if bit {
                    1u8
                } else {
                    0u8
                },
            );
            proof {
                assert(cell_bytes(self@)[i as int] == (if bit {
                    1u8
                } else {
                    0u8
                }));
                assert(out@ =~= base + cell_bytes(self@).take(i as int + 1));
            }
            i = i + 1;
        }
        proof {
            assert(cell_bytes(self@).take(size as int) =~= cell_bytes(self@));
            assert(out@ =~= old(out)@ + arr_bytes(self@));
            reveal(encodes_at);
            assert(out@.subrange(
                old(out)@.len() as int,
                old(out)@.len() + arr_bytes(self@).len() as int,
            ) =~= arr_bytes(self@));
        }
    }

    /// Reads one occupancy byte per cell of the box, validating that each
    /// is zero or one, and builds the bit set together with its count of
    /// set bits.
    fn read_cells(b: &Vec<u8>, p2: usize, m: Mapper, size: u32) -> (r: Option<(
        FixedBitSet,
        u32,
    )>)
        requires
            m.wf(),
            size == m.dimension.spec_size(),
            p2 + size <= b@.len(),
        ensures
            r is Some <==> (forall|j: int|
                0 <= j < size ==> (#[trigger] b@[p2 + j]) == 0u8 || b@[p2 + j] == 1u8),
            r is Some ==> ({
                let (bits, count) = r->Some_0;
                &&& bits_of(bits).len() == size as int
                &&& forall|j: int|
                    0 <= j < size ==> #[trigger] bits_of(bits)[j] == (b@[p2 + j] == 1u8)
                &&& count == count_upto(bits_of(bits), size as int)
                &&& count <= size
            }),
    {
        let blen: usize = b.len();
        let mut bits = bits_with_capacity(size as usize);
        let mut count: u32 = 0;
        let mut i: usize = 0;
        proof {
            lemma_cells_upto_characterize(bits_of(bits), m, size as int);
            assert(cells_upto(bits_of(bits), m, size as int) =~= Set::empty());
            lemma_cells_upto_len(bits_of(bits), m, size as int);
        }
        while i < size as usize
            invariant
                0 <= i <= size,
                m.wf(),
                size == m.dimension.spec_size(),
                p2 + size <= b@.len(),
                blen == b@.len(),
                bits_of(bits).len() == size as int,
                forall|j: int| 0 <= j < i ==> #[trigger] bits_of(bits)[j] == (b@[p2 + j] == 1u8),
                forall|j: int| i <= j < size ==> !(#[trigger] bits_of(bits)[j]),
                forall|j: int|
                    0 <= j < i ==> (#[trigger] b@[p2 + j]) == 0u8 || b@[p2 + j] == 1u8,
                count == count_upto(bits_of(bits), size as int),
                count <= i,
            decreases size - i,
        {
            let byte = b[p2 + i];
            if byte == 1 {
                let ghost bits0 = bits_of(bits);
                proof {
                    lemma_cells_upto_update(bits0, m, size as int, i as int);
                    lemma_cells_upto_len(bits0, m, size as int);
                    lemma_cells_upto_len(bits0.update(i as int, true), m, size as int);
                    lemma_cells_upto_characterize(bits0, m, size as int);
                    lemma_cells_upto_finite(bits0, m, size as int);
                    assert(!cells_upto(bits0, m, size as int).contains(cell_of(m, i as int)))
                        by {
                        if cells_upto(bits0, m, size as int).contains(cell_of(m, i as int)) {
                            let j = choose|j: int|
                                0 <= j < size && bits0[j] && #[trigger] cell_of(m, j) == cell_of(
                                    m,
                                    i as int,
                                );
                            lemma_cell_of_injective(m, j, i as int);
                        }
                    }
                }
                bits_insert(&mut bits, i);
                count = count + 1;
            } else if byte != 0 {
                return None;
            }
            i = i + 1;
        }
        Some((bits, count))
    }

    /// Reads the byte string of an arrangement, validating it: the round
    /// trip of `encode`.  At a position where the bytes are the encoding of
    /// any valid view, exactly the arrangement with that view is returned.
    pub fn decode(b: &Vec<u8>, pos: usize) -> (r: Option<(BlockArrangement, usize)>)
        ensures
            r is Some ==> view_wf(r->Some_0.0@) && pos < r->Some_0.1 <= b@.len(),
            r is Some ==> encodes_at(b@, pos as int, r->Some_0.0@) && r->Some_0.1 == pos
                + arr_bytes(r->Some_0.0@).len(),
            forall|v: ShapeView|
                #[trigger] encodes_at(b@, pos as int, v) ==> (r is Some && r->Some_0.0@ == v
                    && r->Some_0.1 == pos + arr_bytes(v).len()),
    {
        let dim_r = crate::codec::read_dim(b, pos);
        if dim_r.is_none() {
            proof {
                assert forall|v: ShapeView| #[trigger] encodes_at(b@, pos as int, v) implies false by {
                    reveal(encodes_at);
                    assert(arr_bytes(v).len() >= 30);
                }
            }
            return None;
        }
        let (d0, p1) = dim_r.unwrap();
        if d0.x_pos > crate::MAX_EXTENT || d0.x_neg > crate::MAX_EXTENT || d0.y_pos
            > crate::MAX_EXTENT || d0.y_neg > crate::MAX_EXTENT || d0.z_pos > crate::MAX_EXTENT
            || d0.z_neg > crate::MAX_EXTENT {
            proof {
                assert forall|v: ShapeView| #[trigger] encodes_at(b@, pos as int, v) implies false by {
                    reveal(encodes_at);
                    lemma_dim_inversion(b@, pos as int, v, d0);
                }
            }
            return None;
        }
        let or_r = crate::codec::read_orientation(b, p1);
        if or_r.is_none() {
            proof {
                assert forall|v: ShapeView| #[trigger] encodes_at(b@, pos as int, v) implies false by {
                    reveal(encodes_at);
                    lemma_orient_slice(b@, pos as int, v);
                }
            }
            return None;
        }
        let (o0, p2) = or_r.unwrap();
        Self::decode_tail(b, pos, p2, d0, o0)
    }

    /// The remainder of `decode`, after the box and the orientation have
    /// been read: validates and rebuilds the cell storage.
    fn decode_tail(b: &Vec<u8>, pos: usize, p2: usize, d0: Finite3DDimension, o0: Orientation)
        -> (r: Option<(BlockArrangement, usize)>)
        requires
            p2 == pos + 30,
            p2 <= b@.len(),
            d0.wf(),
            crate::codec::dim_bytes(d0) == b@.subrange(pos as int, pos as int + 24),
            crate::codec::orient_bytes(o0) == b@.subrange(pos as int + 24, pos as int + 30),
        ensures
            r is Some ==> view_wf(r->Some_0.0@) && pos < r->Some_0.1 <= b@.len(),
            r is Some ==> encodes_at(b@, pos as int, r->Some_0.0@) && r->Some_0.1 == pos
                + arr_bytes(r->Some_0.0@).len(),
            forall|v: ShapeView|
                #[trigger] encodes_at(b@, pos as int, v) ==> (r is Some && r->Some_0.0@ == v
                    && r->Some_0.1 == pos + arr_bytes(v).len()),
    {
        let m = Mapper { dimension: d0, orientation: o0 };
        let size: u32 = d0.size();
        if b.len() - p2 < size as usize {
            proof {
                assert forall|v: ShapeView| #[trigger] encodes_at(b@, pos as int, v) implies false by {
                    reveal(encodes_at);
                    lemma_encoding_inversion(b@, pos as int, v, d0, o0);
                }
            }
            return None;
        }
        let cells_r = Self::read_cells(b, p2, m, size);
        if cells_r.is_none() {
            proof {
                assert forall|v: ShapeView| #[trigger] encodes_at(b@, pos as int, v) implies false by {
                    reveal(encodes_at);
                    lemma_encoding_inversion(b@, pos as int, v, d0, o0);
                    let j = choose|j: int|
                        0 <= j < size && !((#[trigger] b@[p2 + j]) == 0u8 || b@[p2 + j] == 1u8);
                    assert(b@[p2 + j] == cell_bytes(v)[j]);
                }
            }
            return None;
        }
        let (bits, count) = cells_r.unwrap();
        proof {
            assert forall|v: ShapeView| #[trigger] encodes_at(b@, pos as int, v) implies cells_upto(
                bits_of(bits),
                m,
                size as int,
            ) == v.cells && arr_bytes(v).len() == 30 + size && v.dim == d0 && v.orientation == o0
                && view_wf(v) by {
                reveal(encodes_at);
                lemma_encoding_inversion(b@, pos as int, v, d0, o0);
                lemma_decode_cells_match(b@, p2 as int, bits_of(bits), m, v);
            }
            lemma_cells_upto_len(bits_of(bits), m, size as int);
        }
        if count == 0 || count > 255 {
            proof {
                assert forall|v: ShapeView| #[trigger] encodes_at(b@, pos as int, v) implies false by {
                    reveal(encodes_at);
                    assert(cells_upto(bits_of(bits), m, size as int) == v.cells);
                    assert(count == v.cells.len());
                }
            }
            return None;
        }
        let a = Self::assemble(bits, count as u8, m);
        proof {
            assert forall|v: ShapeView| #[trigger] encodes_at(b@, pos as int, v) implies a@ == v
                && view_wf(v) by {
                reveal(encodes_at);
                assert(a@.cells == v.cells);
                assert(a@.center == centroid_of(v.cells));
                assert(centroid_of(v.cells) == v.center);
            }
            lemma_cells_upto_characterize(bits_of(bits), m, size as int);
            assert forall|j: int| 0 <= j < size implies b@[p2 + j] == #[trigger] cell_bytes(
                a@,
            )[j] by {
                reveal(cell_bytes);
                assert(bits_of(bits)[j] <==> a@.cells.contains(cell_of(m, j))) by {
                    if a@.cells.contains(cell_of(m, j)) {
                        let j2 = choose|j2: int|
                            0 <= j2 < size && bits_of(bits)[j2] && #[trigger] cell_of(m, j2)
                                == cell_of(m, j);
                        lemma_cell_of_injective(m, j2, j);
                    }
                }
            }
            lemma_parts_give_encoding(b@, pos as int, a@);
        }
        Some((a, p2 + size as usize))
    }
}

/// Reading back the parts of an arrangement's byte string pins the view's
/// box and orientation and exposes its cell bytes.
#[verifier::rlimit(100)]
#[verifier::spinoff_prover]
proof fn lemma_encoding_inversion(
    bts: Seq<u8>,
    pos: int,
    v: ShapeView,
    d0: Finite3DDimension,
    o0: Orientation,
)
    requires
        pos >= 0,
        pos + arr_bytes(v).len() <= bts.len(),
        bts.subrange(pos, pos + arr_bytes(v).len()) == arr_bytes(v),
        crate::codec::dim_bytes(d0) == bts.subrange(pos, pos + 24),
        crate::codec::orient_bytes(o0) == bts.subrange(pos + 24, pos + 30),
    ensures
        v.dim == d0,
        v.orientation == o0,
        arr_bytes(v).len() == 30 + v.dim.spec_size(),
        forall|j: int|
            0 <= j < v.dim.spec_size() ==> bts[pos + 30 + j] == #[trigger] cell_bytes(v)[j],
        forall|j: int|
            0 <= j < v.dim.spec_size() ==> (#[trigger] cell_bytes(v)[j]) == 0u8 || cell_bytes(
                v,
            )[j] == 1u8,
{
    let l = arr_bytes(v).len() as int;
    assert forall|i: int| 0 <= i < l implies bts[pos + i] == #[trigger] arr_bytes(v)[i] by {
        assert(bts.subrange(pos, pos + l)[i] == bts[pos + i]);
    }
    assert(bts.subrange(pos, pos + 24) =~= crate::codec::dim_bytes(v.dim));
    crate::codec::lemma_dim_bytes_injective(d0, v.dim);
    assert forall|k: int| 0 <= k < 6 implies bts.subrange(pos + 24, pos + 30)[k]
        == crate::codec::orient_bytes(v.orientation)[k] by {
        assert(bts[pos + (24 + k)] == arr_bytes(v)[24 + k]);
    }
    assert(bts.subrange(pos + 24, pos + 30) =~= crate::codec::orient_bytes(v.orientation));
    crate::codec::lemma_orient_bytes_injective(o0, v.orientation);
    assert(cell_bytes(v).len() == v.dim.spec_size()) by {
        reveal(cell_bytes);
    }
    assert forall|j: int| 0 <= j < v.dim.spec_size() implies bts[pos + 30 + j]
        == #[trigger] cell_bytes(v)[j] by {
        assert(bts[pos + (30 + j)] == arr_bytes(v)[30 + j]);
    }
    assert forall|j: int|
        0 <= j < v.dim.spec_size() implies (#[trigger] cell_bytes(v)[j]) == 0u8 || cell_bytes(
        v,
    )[j] == 1u8 by {
        reveal(cell_bytes);
    }
}

/// The orientation slice of an arrangement's byte string.
#[verifier::rlimit(100)]
#[verifier::spinoff_prover]
proof fn lemma_orient_slice(bts: Seq<u8>, pos: int, v: ShapeView)
    requires
        pos >= 0,
        pos + arr_bytes(v).len() <= bts.len(),
        bts.subrange(pos, pos + arr_bytes(v).len()) == arr_bytes(v),
    ensures
        bts.subrange(pos + 24, pos + 30) == crate::codec::orient_bytes(v.orientation),
{
    let l = arr_bytes(v).len() as int;
    assert forall|i: int| 0 <= i < l implies bts[pos + i] == #[trigger] arr_bytes(v)[i] by {
        assert(bts.subrange(pos, pos + l)[i] == bts[pos + i]);
    }
    assert forall|k: int| 0 <= k < 6 implies bts.subrange(pos + 24, pos + 30)[k]
        == crate::codec::orient_bytes(v.orientation)[k] by {
        assert(bts[pos + (24 + k)] == arr_bytes(v)[24 + k]);
    }
    assert(bts.subrange(pos + 24, pos + 30) =~= crate::codec::orient_bytes(v.orientation));
}

/// Reading back the box part of an arrangement's byte string pins the
/// view's box.
#[verifier::rlimit(100)]
#[verifier::spinoff_prover]
proof fn lemma_dim_inversion(bts: Seq<u8>, pos: int, v: ShapeView, d0: Finite3DDimension)
    requires
        pos >= 0,
        pos + arr_bytes(v).len() <= bts.len(),
        bts.subrange(pos, pos + arr_bytes(v).len()) == arr_bytes(v),
        crate::codec::dim_bytes(d0) == bts.subrange(pos, pos + 24),
    ensures
        v.dim == d0,
{
    let l = arr_bytes(v).len() as int;
    assert forall|i: int| 0 <= i < l implies bts[pos + i] == #[trigger] arr_bytes(v)[i] by {
        assert(bts.subrange(pos, pos + l)[i] == bts[pos + i]);
    }
    assert(bts.subrange(pos, pos + 24) =~= crate::codec::dim_bytes(v.dim));
    crate::codec::lemma_dim_bytes_injective(d0, v.dim);
}

/// When the three parts of an arrangement's byte string stand in the
/// buffer, the buffer holds its encoding.
#[verifier::rlimit(100)]
#[verifier::spinoff_prover]
proof fn lemma_parts_give_encoding(bts: Seq<u8>, pos: int, v: ShapeView)
    requires
        view_wf(v),
        pos >= 0,
        pos + 30 + v.dim.spec_size() <= bts.len(),
        crate::codec::dim_bytes(v.dim) == bts.subrange(pos, pos + 24),
        crate::codec::orient_bytes(v.orientation) == bts.subrange(pos + 24, pos + 30),
        forall|j: int|
            0 <= j < v.dim.spec_size() ==> bts[pos + 30 + j] == #[trigger] cell_bytes(v)[j],
    ensures
        encodes_at(bts, pos, v),
        arr_bytes(v).len() == 30 + v.dim.spec_size(),
{
    reveal(encodes_at);
    assert(cell_bytes(v).len() == v.dim.spec_size()) by {
        reveal(cell_bytes);
    }
    let l = arr_bytes(v).len() as int;
    assert forall|i: int| 0 <= i < l implies bts.subrange(pos, pos + l)[i] == #[trigger] arr_bytes(
        v,
    )[i] by {
        if i < 24 {
            assert(bts.subrange(pos, pos + 24)[i] == bts[pos + i]);
            assert(arr_bytes(v)[i] == crate::codec::dim_bytes(v.dim)[i]);
        } else if i < 30 {
            assert(bts.subrange(pos + 24, pos + 30)[i - 24] == bts[pos + i]);
            assert(arr_bytes(v)[i] == crate::codec::orient_bytes(v.orientation)[i - 24]);
        } else {
            assert(bts[pos + 30 + (i - 30)] == cell_bytes(v)[i - 30]);
            assert(arr_bytes(v)[i] == cell_bytes(v)[i - 30]);
        }
    }
    assert(bts.subrange(pos, pos + l) =~= arr_bytes(v));
}

/// When the cell bytes of a valid view stand in the buffer, the bits built
/// from those bytes store exactly the view's cells.
proof fn lemma_decode_cells_match(
    buf: Seq<u8>,
    p2: int,
    bits: Seq<bool>,
    m: Mapper,
    v: ShapeView,
)
    requires
        m.wf(),
        v.dim == m.dimension,
        v.orientation == m.orientation,
        view_wf(v),
        bits.len() == m.dimension.spec_size(),
        forall|j: int| 0 <= j < bits.len() ==> bits[j] == (buf[p2 + j] == 1u8),
        forall|j: int| 0 <= j < bits.len() ==> buf[p2 + j] == cell_bytes(v)[j],
    ensures
        cells_upto(bits, m, bits.len() as int) == v.cells,
{
    let n = bits.len() as int;
    lemma_cells_upto_characterize(bits, m, n);
    assert forall|j: int| 0 <= j < n implies bits[j] == v.cells.contains(
        #[trigger] cell_of(m, j),
    ) by {
        reveal(cell_bytes);
        assert(cell_bytes(v)[j] == (if v.cells.contains(cell_of(m, j)) {
            1u8
        } else {
            0u8
        }));
    }
    assert forall|p: PointView|
        cells_upto(bits, m, n).contains(p) <==> v.cells.contains(p) by {
        if cells_upto(bits, m, n).contains(p) {
            let j = choose|j: int| 0 <= j < n && bits[j] && #[trigger] cell_of(m, j) == p;
        }
        if v.cells.contains(p) {
            let q = p.unapplied(v.orientation);
            assert(v.dim.contains(q));
            m.lemma_index_of_storage_point_roundtrip(q);
            crate::point::lemma_unapply_then_apply(p, v.orientation);
            let j = m.spec_index_of(q);
            assert(cell_of(m, j) == p);
            assert(bits[j]);
        }
    }
    assert(cells_upto(bits, m, n) =~= v.cells);
}

/// Changing only the orientation of the view leaves the storage-coordinate
/// cells unchanged.
proof fn lemma_storage_unmoved(bits: Seq<bool>, m1: Mapper, m2: Mapper, n: int)
    requires
        m1.wf(),
        m2.wf(),
        m1.dimension == m2.dimension,
        bits.len() == m1.dimension.spec_size(),
        n == bits.len(),
    ensures
        forall|q: PointView|
            cells_upto(bits, m1, n).contains(#[trigger] q.applied(m1.orientation)) <==> cells_upto(
                bits,
                m2,
                n,
            ).contains(#[trigger] q.applied(m2.orientation)),
{
    lemma_cells_upto_characterize(bits, m1, n);
    lemma_cells_upto_characterize(bits, m2, n);
    assert forall|i: int| #[trigger] m1.spec_storage_point(i) == m2.spec_storage_point(i) by {}
    assert forall|q: PointView|
        cells_upto(bits, m1, n).contains(#[trigger] q.applied(m1.orientation)) implies cells_upto(
        bits,
        m2,
        n,
    ).contains(#[trigger] q.applied(m2.orientation)) by {
        let i = choose|i: int| 0 <= i < n && bits[i] && #[trigger] cell_of(m1, i) == q.applied(
            m1.orientation,
        );
        crate::point::lemma_apply_then_unapply(m1.spec_storage_point(i), m1.orientation);
        crate::point::lemma_apply_then_unapply(q, m1.orientation);
        assert(m1.spec_storage_point(i) == q);
        assert(cell_of(m2, i) == q.applied(m2.orientation));
    }
    assert forall|q: PointView|
        cells_upto(bits, m2, n).contains(#[trigger] q.applied(m2.orientation)) implies cells_upto(
        bits,
        m1,
        n,
    ).contains(#[trigger] q.applied(m1.orientation)) by {
        let i = choose|i: int| 0 <= i < n && bits[i] && #[trigger] cell_of(m2, i) == q.applied(
            m2.orientation,
        );
        crate::point::lemma_apply_then_unapply(m2.spec_storage_point(i), m2.orientation);
        crate::point::lemma_apply_then_unapply(q, m2.orientation);
        assert(m2.spec_storage_point(i) == q);
        assert(cell_of(m1, i) == q.applied(m1.orientation));
    }
}

/// Under the identity orientation the stored cells are exactly the
/// storage-coordinate cells of any view over the same storage.
proof fn lemma_identity_cells_are_storage(bits: Seq<bool>, m: Mapper, m0: Mapper, n: int)
    requires
        m.wf(),
        m0.wf(),
        m0.dimension == m.dimension,
        m0.orientation == Orientation::identity(),
        bits.len() == m.dimension.spec_size(),
        n == bits.len(),
    ensures
        cells_upto(bits, m0, n) == Set::new(
            |q: PointView| cells_upto(bits, m, n).contains(q.applied(m.orientation)),
        ),
{
    lemma_storage_unmoved(bits, m0, m, n);
    assert forall|q: PointView|
        cells_upto(bits, m0, n).contains(q) <==> cells_upto(bits, m, n).contains(
            #[trigger] q.applied(m.orientation),
        ) by {
        crate::point::lemma_identity_orientation(q);
        assert(cells_upto(bits, m0, n).contains(q.applied(m0.orientation)) <==> cells_upto(
            bits,
            m,
            n,
        ).contains(q.applied(m.orientation)));
    }
    assert(cells_upto(bits, m0, n) =~= Set::new(
        |q: PointView| cells_upto(bits, m, n).contains(q.applied(m.orientation)),
    ));
}

/// Replacing a view's orientation first by its current orientation composed
/// with any `o`, and then by that composition with the additive complement
/// of `o` on top, restores exactly the original view: the same cells, the
/// same centroid anchor, the same orientation and the same box.  Every
/// equality test and every fingerprint computed afterwards therefore gives
/// the same answer as on the unrotated shape.
pub proof fn lemma_complement_restores_view(v: ShapeView, o: Orientation)
    requires
        view_wf(v),
    ensures
        reoriented(
            reoriented(v, v.orientation.spec_add(o)),
            v.orientation.spec_add(o).spec_add(o.spec_complement()),
        ) == v,
        crate::block_hash::fingerprint_of(
            reoriented(
                reoriented(v, v.orientation.spec_add(o)),
                v.orientation.spec_add(o).spec_add(o.spec_complement()),
            ),
        ) == crate::block_hash::fingerprint_of(v),
{
    let a = v.orientation.spec_add(o);
    let b = a.spec_add(o.spec_complement());
    crate::orientation::lemma_complement_cancels(v.orientation, o);
    assert(b == v.orientation);
    let v1 = reoriented(v, a);
    assert forall|q: PointView|
        v1.storage_cells().contains(q) <==> v.storage_cells().contains(q) by {
        crate::point::lemma_apply_then_unapply(q, a);
    }
    assert(v1.storage_cells() =~= v.storage_cells());
    let v2 = reoriented(v1, b);
    assert forall|p: PointView| v2.cells.contains(p) <==> v.cells.contains(p) by {
        crate::point::lemma_unapply_then_apply(p, v.orientation);
    }
    assert(v2.cells =~= v.cells);
    assert(v2 == v);
}

/// Seeing a finite set of cells through an orientation keeps its size and
/// carries its componentwise sum along.
pub(crate) proof fn lemma_oriented_image_props(s: Set<PointView>, o: Orientation)
    requires
        s.finite(),
    ensures
        oriented_image(s, o).finite(),
        oriented_image(s, o).len() == s.len(),
        cells_sum(oriented_image(s, o)) == cells_sum(s).applied(o),
    decreases s.len(),
{
    if s.len() == 0 {
        assert(s =~= Set::empty());
        assert forall|p: PointView| !(#[trigger] oriented_image(s, o).contains(p)) by {}
        assert(oriented_image(s, o) =~= Set::<PointView>::empty());
        crate::numeric::lemma_set_sum_empty(|p: PointView| p.x);
        crate::numeric::lemma_set_sum_empty(|p: PointView| p.y);
        crate::numeric::lemma_set_sum_empty(|p: PointView| p.z);
        crate::point::lemma_applied_zero(o);
    } else {
        let a = s.choose();
        assert(s.contains(a));
        let s0 = s.remove(a);
        lemma_oriented_image_props(s0, o);
        let b = a.applied(o);
        crate::point::lemma_apply_then_unapply(a, o);
        assert forall|p: PointView|
            oriented_image(s, o).contains(p) <==> oriented_image(s0, o).insert(b).contains(p) by {
            crate::point::lemma_unapply_then_apply(p, o);
        }
        assert(oriented_image(s, o) =~= oriented_image(s0, o).insert(b));
        assert(!oriented_image(s0, o).contains(b));
        assert(s =~= s0.insert(a));
        assert(!s0.contains(a));
        lemma_set_sum_insert(s0, |p: PointView| p.x, a);
        lemma_set_sum_insert(s0, |p: PointView| p.y, a);
        lemma_set_sum_insert(s0, |p: PointView| p.z, a);
        lemma_set_sum_insert(oriented_image(s0, o), |p: PointView| p.x, b);
        lemma_set_sum_insert(oriented_image(s0, o), |p: PointView| p.y, b);
        lemma_set_sum_insert(oriented_image(s0, o), |p: PointView| p.z, b);
        assert(cells_sum(s) == cells_sum(s0).plus(a));
        crate::point::lemma_applied_linear(cells_sum(s0), a, 1, o);
        assert(cells_sum(s).applied(o) == cells_sum(s0).applied(o).plus(b));
    }
}

/// Undoing an orientation over a finite set of cells keeps its size.
pub(crate) proof fn lemma_storage_image_len(cells: Set<PointView>, o: Orientation)
    requires
        cells.finite(),
    ensures
        Set::new(|q: PointView| cells.contains(q.applied(o))).finite(),
        Set::new(|q: PointView| cells.contains(q.applied(o))).len() == cells.len(),
    decreases cells.len(),
{
    let img = Set::new(|q: PointView| cells.contains(q.applied(o)));
    if cells.len() == 0 {
        assert(cells =~= Set::empty());
        assert(img =~= Set::<PointView>::empty());
    } else {
        let a = cells.choose();
        assert(cells.contains(a));
        let c0 = cells.remove(a);
        lemma_storage_image_len(c0, o);
        let img0 = Set::new(|q: PointView| c0.contains(q.applied(o)));
        let b = a.unapplied(o);
        crate::point::lemma_unapply_then_apply(a, o);
        assert forall|q: PointView| img.contains(q) <==> img0.insert(b).contains(q) by {
            crate::point::lemma_apply_then_unapply(q, o);
        }
        assert(img =~= img0.insert(b));
        assert(!img0.contains(b));
    }
}

/// Summing a matching function over the image of a set equals summing the
/// original function over the set.
pub(crate) proof fn lemma_set_sum_image(
    s: Set<PointView>,
    o: Orientation,
    f: spec_fn(PointView) -> int,
    g: spec_fn(PointView) -> int,
)
    requires
        s.finite(),
        forall|q: PointView| #[trigger] s.contains(q) ==> g(q.applied(o)) == f(q),
    ensures
        set_sum(oriented_image(s, o), g) == set_sum(s, f),
    decreases s.len(),
{
    if s.len() == 0 {
        assert(s =~= Set::empty());
        assert(oriented_image(s, o) =~= Set::<PointView>::empty());
        crate::numeric::lemma_set_sum_empty(f);
        crate::numeric::lemma_set_sum_empty(g);
    } else {
        let a = s.choose();
        assert(s.contains(a));
        let s0 = s.remove(a);
        lemma_set_sum_image(s0, o, f, g);
        let b = a.applied(o);
        crate::point::lemma_apply_then_unapply(a, o);
        assert forall|p: PointView|
            oriented_image(s, o).contains(p) <==> oriented_image(s0, o).insert(b).contains(p) by {
            crate::point::lemma_unapply_then_apply(p, o);
        }
        assert(oriented_image(s, o) =~= oriented_image(s0, o).insert(b));
        assert(!oriented_image(s0, o).contains(b));
        lemma_oriented_image_props(s0, o);
        assert(s =~= s0.insert(a));
        assert(!s0.contains(a));
        lemma_set_sum_insert(s0, f, a);
        lemma_set_sum_insert(oriented_image(s0, o), g, b);
        assert(g(b) == f(a));
    }
}

/// Replacing a shape's orientation never changes what it is: the
/// reoriented view compares equal to the original under the
/// orientation-invariant equality, and so does the original to itself.
pub proof fn lemma_reoriented_equal(v: ShapeView, o: Orientation)
    requires
        view_wf(v),
    ensures
        shapes_equal(v, reoriented(v, o)),
{
    let stg = v.storage_cells();
    lemma_storage_image_len(v.cells, v.orientation);
    assert(stg =~= Set::new(|q: PointView| v.cells.contains(q.applied(v.orientation))));
    assert(stg.finite() && stg.len() == v.cells.len());
    let w = reoriented(v, o);
    lemma_oriented_image_props(stg, o);
    assert(w.count() == v.count());
    let n = v.count() as int;
    let sa = cells_sum(stg);
    assert(cells_sum(w.cells) == sa.applied(o));
    assert forall|q: PointView| #[trigger] stg.contains(q) implies scaled_occupied(
        w.cells,
        cells_sum(w.cells),
        n,
        scaled_rel(q, sa, n).applied(o),
    ) by {
        let t = q.applied(o);
        crate::point::lemma_apply_then_unapply(q, o);
        assert(w.cells.contains(t));
        assert(scaled_rel(q, sa, n) == q.scaled(n).minus(sa));
        crate::point::lemma_applied_linear(q.scaled(n), sa, n, o);
        crate::point::lemma_applied_linear(q, sa, n, o);
        assert(q.scaled(n).applied(o) == t.scaled(n));
        assert(scaled_rel(q, sa, n).applied(o) == scaled_rel(t, sa.applied(o), n));
        assert(scaled_rel(t, cells_sum(w.cells), n) == scaled_rel(q, sa, n).applied(o));
    }
    assert(shape_matches_under(v, w, o));
    assert(shapes_equal(v, reoriented(v, o)));
}

/// Every valid view is equal to itself under the orientation-invariant
/// equality: seeing the storage through the view's own orientation gives
/// the view back, so the search always has a matching orientation.
pub proof fn lemma_shapes_equal_reflexive(v: ShapeView)
    requires
        view_wf(v),
    ensures
        shapes_equal(v, v),
{
    lemma_reoriented_equal(v, v.orientation);
    let w = reoriented(v, v.orientation);
    assert forall|p: PointView| w.cells.contains(p) <==> v.cells.contains(p) by {
        crate::point::lemma_unapply_then_apply(p, v.orientation);
    }
    assert(w.cells =~= v.cells);
    assert(w.center == centroid_of(v.cells));
    assert(w == v);
}

impl PartialEq for BlockArrangement {
    /// Two arrangements are the same shape when they have equal block
    /// counts and at least one orientation, searched exhaustively over all
    /// enumerable combinations, carries every centroid-relative cell of the
    /// first onto an occupied centroid-relative cell of the second.
    #[verifier::rlimit(100)]
    fn eq(&self, other: &Self) -> (r: bool) {
        proof {
            use_type_invariant(self);
            use_type_invariant(other);
            self.lemma_wf_implies_view_wf();
            other.lemma_wf_implies_view_wf();
        }
        let na = self.num_blocks();
        let nb_count = other.num_blocks();
        if na != nb_count {
            return false;
        }
        let m0 = Mapper::new(self.mapper.dimension);
        let ghost bits = bits_of(self.bitset);
        let ghost len = bits.len() as int;
        let ghost scells = self@.storage_cells();
        proof {
            lemma_identity_cells_are_storage(bits, self.mapper, m0, len);
            assert(cells_upto(bits, m0, len) == scells);
            lemma_cells_upto_len(bits, self.mapper, len);
            lemma_cells_upto_len(bits, m0, len);
        }
        let pts = Self::cells_vec(&self.bitset, m0);
        let (sax, say, saz) = Self::coord_sums(&self.bitset, m0, self.num_blocks);
        let (sbx, sby, sbz) = Self::coord_sums(&other.bitset, other.mapper, other.num_blocks);
        let ghost sav = cells_sum(scells);
        let ghost sbv = cells_sum(other@.cells);
        let ghost nv = self@.count() as int;
        let n64: i64 = na as i64;
        let mut it = crate::orientation::OrientationIterator::default();
        loop
            invariant
                0 <= it.position() <= 512,
                forall|j: int|
                    0 <= j < it.position() ==> !shape_matches_under(
                        self@,
                        other@,
                        #[trigger] crate::orientation::orientation_at(j),
                    ),
                self@.count() == other@.count(),
                1 <= n64 == nv <= 255,
                nv == self@.count() as int,
                sax == sav.x && say == sav.y && saz == sav.z,
                sbx == sbv.x && sby == sbv.y && sbz == sbv.z,
                -76500 <= sax <= 76500 && -76500 <= say <= 76500 && -76500 <= saz <= 76500,
                -76500 <= sbx <= 76500 && -76500 <= sby <= 76500 && -76500 <= sbz <= 76500,
                sav == cells_sum(self@.storage_cells()),
                sbv == cells_sum(other@.cells),
                scells == self@.storage_cells(),
                pts@.len() == scells.len(),
                forall|k: int| 0 <= k < pts@.len() ==> scells.contains((#[trigger] pts@[k])@),
                forall|q: PointView|
                    #[trigger] scells.contains(q) ==> exists|k: int|
                        0 <= k < pts@.len() && (#[trigger] pts@[k])@ == q,
                forall|k: int|
                    0 <= k < pts@.len() ==> (#[trigger] pts@[k])@.bounded(crate::MAX_EXTENT as int)
                        && pts@[k].in_range(),
                forall|p: PointView|
                    other@.cells.contains(p) ==> #[trigger] p.bounded(crate::MAX_EXTENT as int),
            decreases 512 - it.position(),
        {
            match it.next() {
                None => {
                    proof {
                        if shapes_equal(self@, other@) {
                            let o = choose|o: Orientation|
                                #[trigger] shape_matches_under(self@, other@, o);
                            crate::orientation::lemma_every_orientation_is_enumerated(o);
                        }
                    }
                    return false;
                },
                Some(o) => {
                    let mut all = true;
                    let mut k: usize = 0;
                    while k < pts.len()
                        invariant
                            0 <= k <= pts@.len(),
                            1 <= n64 == nv <= 255,
                            sax == sav.x && say == sav.y && saz == sav.z,
                            sbx == sbv.x && sby == sbv.y && sbz == sbv.z,
                            -76500 <= sax <= 76500 && -76500 <= say <= 76500 && -76500 <= saz
                                <= 76500,
                            -76500 <= sbx <= 76500 && -76500 <= sby <= 76500 && -76500 <= sbz
                                <= 76500,
                            sbv == cells_sum(other@.cells),
                            forall|k2: int|
                                0 <= k2 < pts@.len() ==> (#[trigger] pts@[k2])@.bounded(
                                    crate::MAX_EXTENT as int,
                                ) && pts@[k2].in_range(),
                            forall|p: PointView|
                                other@.cells.contains(p) ==> #[trigger] p.bounded(
                                    crate::MAX_EXTENT as int,
                                ),
                            all <==> (forall|j: int|
                                0 <= j < k ==> scaled_occupied(
                                    other@.cells,
                                    sbv,
                                    nv,
                                    scaled_rel((#[trigger] pts@[j])@, sav, nv).applied(o),
                                )),
                        decreases pts@.len() - k,
                    {
                        let p = pts[k];
                        proof {
                            assert(-76500 <= n64 * (p@.x) <= 76500 && -76500 <= n64 * (p@.y)
                                <= 76500 && -76500 <= n64 * (p@.z) <= 76500) by (nonlinear_arith)
                                requires
                                    1 <= n64 <= 255,
                                    p@.bounded(300),
                            ;
                        }
                        let mut w = Point3D::new(
                            (n64 * (p.x() as i64) - sax) as i32,
                            (n64 * (p.y() as i64) - say) as i32,
                            (n64 * (p.z() as i64) - saz) as i32,
                        );
                        proof {
                            assert(w@ == scaled_rel(p@, sav, nv));
                            assert(w@.bounded(153000));
                        }
                        w.apply_orientation(&o);
                        proof {
                            crate::point::lemma_applied_bounded(
                                scaled_rel(p@, sav, nv),
                                o,
                                153000,
                            );
                        }
                        let x: i64 = (w.x() as i64) + sbx;
                        let y: i64 = (w.y() as i64) + sby;
                        let z: i64 = (w.z() as i64) + sbz;
                        let tx: i64 = crate::numeric::tdiv_i64(x, n64);
                        let ty: i64 = crate::numeric::tdiv_i64(y, n64);
                        let tz: i64 = crate::numeric::tdiv_i64(z, n64);
                        proof {
                            assert(229500 <= 229500 * n64 && 229500 * n64 <= 229500 * 255)
                                by (nonlinear_arith)
                                requires
                                    1 <= n64 <= 255,
                            ;
                            lemma_tdiv_bound(x as int, n64 as int, 229500);
                            lemma_tdiv_bound(y as int, n64 as int, 229500);
                            lemma_tdiv_bound(z as int, n64 as int, 229500);
                            assert(-229500 * 255 <= n64 * tx <= 229500 * 255 && -229500 * 255
                                <= n64 * ty <= 229500 * 255 && -229500 * 255 <= n64 * tz <= 229500
                                * 255) by (nonlinear_arith)
                                requires
                                    1 <= n64 <= 255,
                                    -229500 <= tx <= 229500,
                                    -229500 <= ty <= 229500,
                                    -229500 <= tz <= 229500,
                            ;
                        }
                        let hit: bool;
                        if n64 * tx == x && n64 * ty == y && n64 * tz == z {
                            let t = Point3D::new(tx as i32, ty as i32, tz as i32);
                            hit = other.is_set(&t);
                            proof {
                                let wv = scaled_rel(p@, sav, nv).applied(o);
                                if hit {
                                    assert(scaled_rel(t@, sbv, nv) == wv);
                                    assert(scaled_occupied(other@.cells, sbv, nv, wv));
                                }
                                if scaled_occupied(other@.cells, sbv, nv, wv) {
                                    let t2 = choose|t2: PointView|
                                        #[trigger] other@.cells.contains(t2) && scaled_rel(
                                            t2,
                                            sbv,
                                            nv,
                                        ) == wv;
                                    assert(x == n64 * t2.x && y == n64 * t2.y && z == n64 * t2.z);
                                    crate::numeric::lemma_tdiv_exact(t2.x, n64 as int);
                                    crate::numeric::lemma_tdiv_exact(t2.y, n64 as int);
                                    crate::numeric::lemma_tdiv_exact(t2.z, n64 as int);
                                    assert(t2.bounded(crate::MAX_EXTENT as int));
                                    assert(t@ == t2);
                                }
                            }
                        } else {
                            hit = false;
                            proof {
                                let wv = scaled_rel(p@, sav, nv).applied(o);
                                if scaled_occupied(other@.cells, sbv, nv, wv) {
                                    let t2 = choose|t2: PointView|
                                        #[trigger] other@.cells.contains(t2) && scaled_rel(
                                            t2,
                                            sbv,
                                            nv,
                                        ) == wv;
                                    assert(x == n64 * t2.x && y == n64 * t2.y && z == n64 * t2.z);
                                    crate::numeric::lemma_tdiv_exact(t2.x, n64 as int);
                                    crate::numeric::lemma_tdiv_exact(t2.y, n64 as int);
                                    crate::numeric::lemma_tdiv_exact(t2.z, n64 as int);
                                }
                            }
                        }
                        all = all && hit;
                        k = k + 1;
                    }
                    if all {
                        proof {
                            assert forall|q: PointView| #[trigger]
                                scells.contains(q) implies scaled_occupied(
                                other@.cells,
                                cells_sum(other@.cells),
                                self@.count() as int,
                                scaled_rel(q, cells_sum(scells), self@.count() as int).applied(o),
                            ) by {
                                let j = choose|j: int|
                                    0 <= j < pts@.len() && (#[trigger] pts@[j])@ == q;
                                assert(scaled_occupied(
                                    other@.cells,
                                    sbv,
                                    nv,
                                    scaled_rel(pts@[j]@, sav, nv).applied(o),
                                ));
                            }
                            assert(shape_matches_under(self@, other@, o));
                        }
                        return true;
                    }
                    proof {
                        assert(!shape_matches_under(self@, other@, o)) by {
                            if shape_matches_under(self@, other@, o) {
                                assert forall|j: int| 0 <= j < pts@.len() implies scaled_occupied(
                                    other@.cells,
                                    sbv,
                                    nv,
                                    scaled_rel((#[trigger] pts@[j])@, sav, nv).applied(o),
                                ) by {
                                    assert(scells.contains(pts@[j]@));
                                }
                            }
                        }
                    }
                },
            }
        }
    }
}

impl vstd::std_specs::cmp::PartialEqSpecImpl for BlockArrangement {
    open spec fn obeys_eq_spec() -> bool {
        true
    }

    open spec fn eq_spec(&self, other: &Self) -> bool {
        shapes_equal(self@, other@)
    }
}

impl Eq for BlockArrangement {

}

} // verus!
