use vstd::prelude::*;
use crate::block_arrangement::{
    has_neighbor_spec, neighbor_offset_view, view_wf, BlockArrangement, ShapeView,
};
use crate::point::{Point3D, PointView};

verus! {

/// Every position where a single block could extend the shape: unoccupied,
/// and sharing a face with an occupied cell.
pub open spec fn candidate_set(v: ShapeView) -> Set<PointView> {
    Set::new(|q: PointView| !v.cells.contains(q) && has_neighbor_spec(v.cells, q))
}

/// The offset pointing back: adding an offset and then its opposite returns
/// to the start.
pub open spec fn opposite_offset(k: int) -> int {
    if k == 0 {
        1int
    } else if k == 1 {
        0int
    } else if k == 2 {
        3int
    } else if k == 3 {
        2int
    } else if k == 4 {
        5int
    } else {
        4int
    }
}

proof fn lemma_opposite_offset(p: PointView, k: int)
    requires
        0 <= k < 6,
    ensures
        0 <= opposite_offset(k) < 6,
        p.plus(neighbor_offset_view(k)).plus(neighbor_offset_view(opposite_offset(k))) == p,
{
}

/// Creates the distinct one-block extensions of an arrangement.  The
/// candidate positions visited are free of duplicates; the resulting shapes
/// may still coincide under the orientation-invariant equality.
pub struct VariationGenerator {
    original: BlockArrangement,
    candidates: Vec<Point3D>,
    next_index: usize,
}

impl VariationGenerator {
    /// The shape being extended.
    pub closed spec fn orig_view(self) -> ShapeView {
        self.original@
    }

    /// The candidate positions not yet turned into variations.
    pub closed spec fn remaining(self) -> Seq<PointView> {
        self.candidates@.subrange(self.next_index as int, self.candidates@.len() as int)
            .map_values(|p: Point3D| p@)
    }

    #[verifier::type_invariant]
    closed spec fn wf_gen(self) -> bool {
        &&& view_wf(self.original@)
        &&& self.original@.count() < 255
        &&& self.original@.dim.within(crate::MAX_EXTENT - 1)
        &&& self.next_index <= self.candidates@.len()
        &&& forall|k: int|
            0 <= k < self.candidates@.len() ==> {
                &&& (#[trigger] self.candidates@[k])@.bounded(self.original@.dim.max_reach() + 1)
                &&& !self.original@.cells.contains(self.candidates@[k]@)
                &&& has_neighbor_spec(self.original@.cells, self.candidates@[k]@)
            }
        &&& forall|k1: int, k2: int|
            0 <= k1 < k2 < self.candidates@.len() ==> self.candidates@[k1] != self.candidates@[k2]
    }

    /// Collects the candidate positions of `ba`: every unoccupied cell
    /// sharing a face with an occupied one, each position once.
    pub fn new(ba: &BlockArrangement) -> (r: Self)
        requires
            view_wf(ba@),
            ba@.count() < 255,
            ba@.dim.within(crate::MAX_EXTENT - 1),
        ensures
            r.orig_view() == ba@,
            r.remaining().no_duplicates(),
            forall|k: int|
                0 <= k < r.remaining().len() ==> candidate_set(ba@).contains(
                    #[trigger] r.remaining()[k],
                ),
            forall|q: PointView|
                #[trigger] candidate_set(ba@).contains(q) ==> exists|k: int|
                    0 <= k < r.remaining().len() && r.remaining()[k] == q,
    {
        let cells = ba.block_iter();
        let mut cands: Vec<Point3D> = Vec::new();
        let mut j: usize = 0;
        proof {
            assert forall|p: PointView| ba@.cells.contains(p) implies #[trigger] p.bounded(
                ba@.dim.max_reach(),
            ) by {
                crate::point::lemma_applied_bounded(
                    p.unapplied(ba@.orientation),
                    ba@.orientation,
                    ba@.dim.max_reach(),
                );
                crate::point::lemma_unapply_then_apply(p, ba@.orientation);
            }
        }
        while j < cells.len()
            invariant
                0 <= j <= cells@.len(),
                view_wf(ba@),
                forall|j2: int|
                    0 <= j2 < cells@.len() ==> ba@.cells.contains((#[trigger] cells@[j2])@),
                forall|p: PointView|
                    #[trigger] ba@.cells.contains(p) ==> exists|j2: int|
                        0 <= j2 < cells@.len() && (#[trigger] cells@[j2])@ == p,
                forall|j2: int|
                    0 <= j2 < cells@.len() ==> (#[trigger] cells@[j2])@.bounded(
                        ba@.dim.max_reach(),
                    ) && cells@[j2].in_range(),
                forall|k: int|
                    0 <= k < cands@.len() ==> {
                        &&& (#[trigger] cands@[k])@.bounded(ba@.dim.max_reach() + 1)
                        &&& !ba@.cells.contains(cands@[k]@)
                        &&& has_neighbor_spec(ba@.cells, cands@[k]@)
                    },
                forall|k1: int, k2: int|
                    0 <= k1 < k2 < cands@.len() ==> cands@[k1] != cands@[k2],
                forall|j2: int, k2: int|
                    0 <= j2 < j && 0 <= k2 < 6 && !ba@.cells.contains(
                        (#[trigger] cells@[j2])@.plus(#[trigger] neighbor_offset_view(k2)),
                    ) ==> exists|i: int|
                        0 <= i < cands@.len() && (#[trigger] cands@[i])@ == cells@[j2]@.plus(
                            neighbor_offset_view(k2),
                        ),
            decreases cells@.len() - j,
        {
            let cell = cells[j];
            let mut k: usize = 0;
            while k < 6
                invariant
                    0 <= k <= 6,
                    0 <= j < cells@.len(),
                    view_wf(ba@),
                    cell == cells@[j as int],
                    forall|j2: int|
                        0 <= j2 < cells@.len() ==> ba@.cells.contains((#[trigger] cells@[j2])@),
                    forall|j2: int|
                        0 <= j2 < cells@.len() ==> (#[trigger] cells@[j2])@.bounded(
                            ba@.dim.max_reach(),
                        ) && cells@[j2].in_range(),
                    forall|k2: int|
                        0 <= k2 < cands@.len() ==> {
                            &&& (#[trigger] cands@[k2])@.bounded(ba@.dim.max_reach() + 1)
                            &&& !ba@.cells.contains(cands@[k2]@)
                            &&& has_neighbor_spec(ba@.cells, cands@[k2]@)
                        },
                    forall|k1: int, k2: int|
                        0 <= k1 < k2 < cands@.len() ==> cands@[k1] != cands@[k2],
                    forall|j2: int, k2: int|
                        0 <= j2 < j && 0 <= k2 < 6 && !ba@.cells.contains(
                            (#[trigger] cells@[j2])@.plus(#[trigger] neighbor_offset_view(k2)),
                        ) ==> exists|i: int|
                            0 <= i < cands@.len() && (#[trigger] cands@[i])@ == cells@[j2]@.plus(
                                neighbor_offset_view(k2),
                            ),
                    forall|k2: int|
                        0 <= k2 < k && !ba@.cells.contains(
                            cells@[j as int]@.plus(#[trigger] neighbor_offset_view(k2)),
                        ) ==> exists|i: int|
                            0 <= i < cands@.len() && (#[trigger] cands@[i])@ == cells@[j as int]@.plus(neighbor_offset_view(k2)),
                decreases 6 - k,
            {
                let off = BlockArrangement::neighbor_offset_pub(k);
                let q = cell.add(off);
                let occupied = ba.is_set(&q);
                let dup = if occupied {
                    false
                } else {
                    contains_point(&cands, &q)
                };
                let ghost cands0 = cands@;
                if !occupied && !dup {
                    cands.push(q);
                    proof {
                        assert(q@ == cells@[j as int]@.plus(neighbor_offset_view(k as int)));
                        assert(has_neighbor_spec(ba@.cells, q@)) by {
                            lemma_opposite_offset(cells@[j as int]@, k as int);
                            let kk = opposite_offset(k as int);
                            assert(q@.plus(neighbor_offset_view(kk)) == cells@[j as int]@);
                            assert(ba@.cells.contains(q@.plus(neighbor_offset_view(kk))));
                        }
                        assert(cands@ == cands0.push(q));
                    }
                }
                proof {
                    // every earlier candidate is still where it was
                    assert(forall|i: int| 0 <= i < cands0.len() ==> cands@[i] == cands0[i]);
                    assert(cands0.len() <= cands@.len());
                    // the pair visited in this step is covered
                    if !occupied {
                        if dup {
                            let i = choose|i: int| 0 <= i < cands0.len() && cands0[i] == q;
                            assert(cands@[i]@ == cells@[j as int]@.plus(
                                neighbor_offset_view(k as int),
                            ));
                        } else {
                            assert(cands@[cands@.len() - 1]@ == cells@[j as int]@.plus(
                                neighbor_offset_view(k as int),
                            ));
                        }
                        assert(exists|i: int|
                            0 <= i < cands@.len() && (#[trigger] cands@[i])@ == cells@[j as int]@.plus(
                                neighbor_offset_view(k as int),
                            ));
                    }
                    // pairs of earlier cells keep their witnesses
                    assert forall|j2: int, k2: int|
                        0 <= j2 < j && 0 <= k2 < 6 && !ba@.cells.contains(
                            (#[trigger] cells@[j2])@.plus(#[trigger] neighbor_offset_view(k2)),
                        ) implies exists|i: int|
                        0 <= i < cands@.len() && (#[trigger] cands@[i])@ == cells@[j2]@.plus(
                            neighbor_offset_view(k2),
                        ) by {
                        let i = choose|i: int|
                            0 <= i < cands0.len() && (#[trigger] cands0[i])@ == cells@[j2]@.plus(
                                neighbor_offset_view(k2),
                            );
                        assert(cands@[i]@ == cells@[j2]@.plus(neighbor_offset_view(k2)));
                    }
                    // earlier offsets of the current cell keep their witnesses
                    assert forall|k2: int|
                        0 <= k2 < k + 1 && !ba@.cells.contains(
                            cells@[j as int]@.plus(#[trigger] neighbor_offset_view(k2)),
                        ) implies exists|i: int|
                        0 <= i < cands@.len() && (#[trigger] cands@[i])@ == cells@[j as int]@.plus(
                            neighbor_offset_view(k2),
                        ) by {
                        if k2 < k {
                            let i = choose|i: int|
                                0 <= i < cands0.len() && (#[trigger] cands0[i])@ == cells@[
                                    j as int
                                ]@.plus(neighbor_offset_view(k2));
                            assert(cands@[i]@ == cells@[j as int]@.plus(neighbor_offset_view(k2)));
                        }
                    }
                }
                k = k + 1;
            }
            j = j + 1;
        }
        let r = VariationGenerator { original: ba.clone(), candidates: cands, next_index: 0 };
        proof {
            assert(r.remaining() =~= r.candidates@.map_values(|p: Point3D| p@));
            assert forall|q: PointView| #[trigger]
                candidate_set(ba@).contains(q) implies exists|kk: int|
                0 <= kk < r.remaining().len() && r.remaining()[kk] == q by {
                let k0 = choose|k0: int|
                    0 <= k0 < 6 && ba@.cells.contains(q.plus(#[trigger] neighbor_offset_view(k0)));
                let c = q.plus(neighbor_offset_view(k0));
                let j2 = choose|j2: int| 0 <= j2 < cells@.len() && (#[trigger] cells@[j2])@ == c;
                lemma_opposite_offset(q, k0);
                let kk0 = opposite_offset(k0);
                assert(c.plus(neighbor_offset_view(kk0)) == q);
                assert(!ba@.cells.contains(cells@[j2]@.plus(neighbor_offset_view(kk0))));
                let i = choose|i: int|
                    0 <= i < cands@.len() && (#[trigger] cands@[i])@ == cells@[j2]@.plus(
                        neighbor_offset_view(kk0),
                    );
                assert(r.remaining()[i] == q);
            }
            assert forall|k1: int, k2: int|
                0 <= k1 < k2 < r.remaining().len() implies r.remaining()[k1] != r.remaining()[k2]
            by {
                assert(cands@[k1] != cands@[k2]);
            }
            assert(r.remaining().no_duplicates());
        }
        r
    }

    /// The next one-block extension: the original shape with the next
    /// candidate position filled, or nothing once every candidate has been
    /// produced.
    #[verifier::rlimit(100)]
    pub fn next(&mut self) -> (r: Option<BlockArrangement>)
        ensures
            old(self).remaining().len() == 0 ==> r is None && *final(self) == *old(self),
            old(self).remaining().len() > 0 ==> {
                &&& r is Some
                &&& final(self).remaining() == old(self).remaining().skip(1)
                &&& final(self).orig_view() == old(self).orig_view()
                &&& r->Some_0@ == crate::block_arrangement::extended_view(
                    old(self).orig_view(),
                    old(self).remaining()[0],
                )
                &&& r->Some_0@.cells == old(self).orig_view().cells.insert(
                    old(self).remaining()[0],
                )
                &&& r->Some_0@.count() == old(self).orig_view().count() + 1
                &&& r->Some_0@.orientation == old(self).orig_view().orientation
                &&& view_wf(r->Some_0@)
                &&& forall|e: int|
                    0 <= e && old(self).orig_view().dim.within(e) ==> (r->Some_0)@.dim.within(
                        e + 1,
                    )
            },
    {
        proof {
            use_type_invariant(&*self);
        }
        if self.next_index >= self.candidates.len() {
            proof {
                assert(old(self).remaining().len() == 0);
            }
            return None;
        }
        let p = self.candidates[self.next_index];
        proof {
            assert(self.original@.dim.max_reach() + 1 <= crate::MAX_EXTENT as int);
            assert(p@.bounded(crate::MAX_EXTENT as int));
        }
        self.next_index = self.next_index + 1;
        let mut b = self.original.clone();
        let res = b.add_block_at(&p);
        proof {
            assert(old(self).remaining()[0] == p@);
            assert(res is Ok);
            assert(final(self).remaining() =~= old(self).remaining().skip(1));
            let ghost d = old(self).orig_view().dim;
            let mr = d.max_reach();
            crate::point::lemma_applied_bounded(p@, old(self).orig_view().orientation, mr + 1);
            let q = p@.unapplied(old(self).orig_view().orientation);
            assert(q.bounded(mr + 1));
            assert forall|e: int|
                0 <= e && old(self).orig_view().dim.within(e) implies b@.dim.within(e + 1) by {
                assert(mr <= e);
                assert(q.bounded(e + 1));
            }
        }
        match res {
            Ok(_) => Some(b),
            Err(_) => {
                proof {
                    assert(false);
                }
                None
            },
        }
    }
}

/// Whether the list already holds the point.
fn contains_point(v: &Vec<Point3D>, q: &Point3D) -> (r: bool)
    ensures
        r == exists|k: int| 0 <= k < v@.len() && v@[k] == *q,
{
    let mut k: usize = 0;
    while k < v.len()
        invariant
            0 <= k <= v@.len(),
            forall|k2: int| 0 <= k2 < k ==> v@[k2] != *q,
        decreases v@.len() - k,
    {
        if v[k].x == q.x && v[k].y == q.y && v[k].z == q.z {
            return true;
        }
        k = k + 1;
    }
    false
}

} // verus!
