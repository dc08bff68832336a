use vstd::prelude::*;
use crate::block_arrangement::{shapes_equal, BlockArrangement, ShapeView};

verus! {

/// A store of polycubes: at most one representative per shape under the
/// orientation-invariant equality is ever added through `put`.
#[derive(Debug)]
pub struct PolyTree {
    items: Vec<BlockArrangement>,
}

impl View for PolyTree {
    type V = Seq<ShapeView>;

    closed spec fn view(&self) -> Seq<ShapeView> {
        self.items@.map_values(|b: BlockArrangement| b@)
    }
}

impl Default for PolyTree {
    fn default() -> (r: Self)
        ensures
            r@ == Seq::<ShapeView>::empty(),
    {
        let r = PolyTree { items: Vec::new() };
        proof {
            assert(r@ =~= Seq::<ShapeView>::empty());
        }
        r
    }
}

impl PolyTree {
    pub fn new() -> (r: Self)
        ensures
            r@ == Seq::<ShapeView>::empty(),
    {
        Self::default()
    }

    /// Whether some stored shape equals `block` under the
    /// orientation-invariant equality.
    pub fn contains(&self, block: &BlockArrangement) -> (r: bool)
        ensures
            r == exists|i: int|
                0 <= i < self@.len() && shapes_equal(#[trigger] self@[i], block@),
    {
        let mut k: usize = 0;
        while k < self.items.len()
            invariant
                0 <= k <= self.items@.len(),
                self@.len() == self.items@.len(),
                forall|i: int| 0 <= i < k ==> !shapes_equal(#[trigger] self@[i], block@),
            decreases self.items@.len() - k,
        {
            if self.items[k] == *block {
                proof {
                    assert(shapes_equal(self@[k as int], block@));
                }
                return true;
            }
            proof {
                assert(!shapes_equal(self@[k as int], block@));
            }
            k = k + 1;
        }
        false
    }

    /// Stores `block` unless an equal shape is already present, and says
    /// whether one was.
    pub fn put(&mut self, block: BlockArrangement) -> (r: bool)
        ensures
            r == exists|i: int|
                0 <= i < old(self)@.len() && shapes_equal(#[trigger] old(self)@[i], block@),
            r ==> *final(self) == *old(self),
            !r ==> final(self)@ == old(self)@.push(block@),
    {
        let present = self.contains(&block);
        if !present {
            self.items.push(block);
            proof {
                assert(self@ =~= old(self)@.push(self.items@[self.items@.len() - 1]@));
            }
        }
        present
    }

    /// How many distinct shapes are stored.
    pub fn size(&self) -> (r: usize)
        ensures
            r == self@.len(),
    {
        self.items.len()
    }
}

} // verus!
