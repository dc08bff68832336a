use vstd::prelude::*;
use crate::point::Axis3D;

verus! {

/// An element of the additive cyclic group of order four: the multiples of a
/// quarter turn.
#[derive(Copy, Clone, Debug, PartialEq, Eq, Structural, Hash)]
pub enum RotationAmount {
    Zero,
    Ninety,
    OneEighty,
    TwoSeventy,
}

impl Default for RotationAmount {
    fn default() -> (r: Self)
        ensures
            r == RotationAmount::Zero,
    {
        RotationAmount::Zero
    }
}

impl RotationAmount {
    /// The number of quarter turns, 0 through 3.
    pub open spec fn idx(self) -> int {
        match self {
            RotationAmount::Zero => 0,
            RotationAmount::Ninety => 1,
            RotationAmount::OneEighty => 2,
            RotationAmount::TwoSeventy => 3,
        }
    }

    /// The amount with the given number of quarter turns, for 0 through 3.
    pub open spec fn from_idx(i: int) -> RotationAmount {
        if i == 1 {
            RotationAmount::Ninety
        } else if i == 2 {
            RotationAmount::OneEighty
        } else if i == 3 {
            RotationAmount::TwoSeventy
        } else {
            RotationAmount::Zero
        }
    }

    /// Group addition: quarter-turn counts added modulo four.
    pub open spec fn spec_add(self, rhs: RotationAmount) -> RotationAmount {
        RotationAmount::from_idx((self.idx() + rhs.idx()) % 4)
    }

    /// Group subtraction: quarter-turn counts subtracted modulo four.
    pub open spec fn spec_sub(self, rhs: RotationAmount) -> RotationAmount {
        RotationAmount::from_idx((self.idx() - rhs.idx()) % 4)
    }

    /// The inverse element: adding it to `self` gives `Zero`.
    pub open spec fn inverted(self) -> RotationAmount {
        RotationAmount::from_idx((0 - self.idx()) % 4)
    }

    pub fn add(self, rhs: Self) -> (r: Self)
        ensures
            r == self.spec_add(rhs),
    {
        match (self, rhs) {
            (RotationAmount::Zero, _) => rhs,
            (_, RotationAmount::Zero) => self,
            (RotationAmount::Ninety, RotationAmount::Ninety) => RotationAmount::OneEighty,
            (RotationAmount::Ninety, RotationAmount::OneEighty)
            | (RotationAmount::OneEighty, RotationAmount::Ninety) => RotationAmount::TwoSeventy,
            (RotationAmount::OneEighty, RotationAmount::OneEighty)
            | (RotationAmount::TwoSeventy, RotationAmount::Ninety)
            | (RotationAmount::Ninety, RotationAmount::TwoSeventy) => RotationAmount::Zero,
            (RotationAmount::TwoSeventy, RotationAmount::TwoSeventy) => RotationAmount::OneEighty,
            (RotationAmount::OneEighty, RotationAmount::TwoSeventy)
            | (RotationAmount::TwoSeventy, RotationAmount::OneEighty) => RotationAmount::Ninety,
        }
    }

    pub fn sub(self, rhs: Self) -> (r: Self)
        ensures
            r == self.spec_sub(rhs),
    {
        match (self, rhs) {
            (_, RotationAmount::Zero) => self,
            (RotationAmount::Ninety, RotationAmount::Ninety)
            | (RotationAmount::OneEighty, RotationAmount::OneEighty)
            | (RotationAmount::TwoSeventy, RotationAmount::TwoSeventy) => RotationAmount::Zero,
            (RotationAmount::Zero, RotationAmount::TwoSeventy)
            | (RotationAmount::OneEighty, RotationAmount::Ninety)
            | (RotationAmount::TwoSeventy, RotationAmount::OneEighty) => RotationAmount::Ninety,
            (RotationAmount::Zero, RotationAmount::OneEighty)
            | (RotationAmount::Ninety, RotationAmount::TwoSeventy)
            | (RotationAmount::TwoSeventy, RotationAmount::Ninety) => RotationAmount::OneEighty,
            (RotationAmount::Zero, RotationAmount::Ninety)
            | (RotationAmount::Ninety, RotationAmount::OneEighty)
            | (RotationAmount::OneEighty, RotationAmount::TwoSeventy) => RotationAmount::TwoSeventy,
        }
    }

    /// The inverse amount, so that adding it to `self` gives
    /// `RotationAmount::Zero`.
    pub fn inverse(&self) -> (r: Self)
        ensures
            r == self.inverted(),
            r.spec_add(*self) == RotationAmount::Zero,
            self.spec_add(r) == RotationAmount::Zero,
    {
        RotationAmount::Zero.sub(*self)
    }
}

/// A rotation amount per axis plus a mirror flag per axis.  Composable by
/// componentwise addition (mirror flags combine by exclusive or), and
/// invertible through `additive_complement`.
#[derive(Copy, Clone, Debug, PartialEq, Eq, Structural, Hash)]
pub struct Orientation {
    pub x_rot: RotationAmount,
    pub y_rot: RotationAmount,
    pub z_rot: RotationAmount,
    pub x_mir: bool,
    pub y_mir: bool,
    pub z_mir: bool,
}

impl Default for Orientation {
    fn default() -> (r: Self)
        ensures
            r == Orientation::identity(),
    {
        Orientation {
            x_rot: RotationAmount::Zero,
            y_rot: RotationAmount::Zero,
            z_rot: RotationAmount::Zero,
            x_mir: false,
            y_mir: false,
            z_mir: false,
        }
    }
}

impl Orientation {
    /// The orientation that moves nothing.
    pub open spec fn identity() -> Orientation {
        Orientation {
            x_rot: RotationAmount::Zero,
            y_rot: RotationAmount::Zero,
            z_rot: RotationAmount::Zero,
            x_mir: false,
            y_mir: false,
            z_mir: false,
        }
    }

    /// Componentwise composition: rotations add, mirror flags combine by
    /// exclusive or.
    pub open spec fn spec_add(self, rhs: Orientation) -> Orientation {
        Orientation {
            x_rot: self.x_rot.spec_add(rhs.x_rot),
            y_rot: self.y_rot.spec_add(rhs.y_rot),
            z_rot: self.z_rot.spec_add(rhs.z_rot),
            x_mir: self.x_mir != rhs.x_mir,
            y_mir: self.y_mir != rhs.y_mir,
            z_mir: self.z_mir != rhs.z_mir,
        }
    }

    /// The orientation that, added to `self`, gives the identity.
    pub open spec fn spec_complement(self) -> Orientation {
        Orientation {
            x_rot: self.x_rot.inverted(),
            y_rot: self.y_rot.inverted(),
            z_rot: self.z_rot.inverted(),
            x_mir: self.x_mir,
            y_mir: self.y_mir,
            z_mir: self.z_mir,
        }
    }

    pub fn add(self, rhs: Self) -> (r: Self)
        ensures
            r == self.spec_add(rhs),
    {
        Orientation {
            x_rot: self.x_rot.add(rhs.x_rot),
            y_rot: self.y_rot.add(rhs.y_rot),
            z_rot: self.z_rot.add(rhs.z_rot),
            x_mir: self.x_mir != rhs.x_mir,
            y_mir: self.y_mir != rhs.y_mir,
            z_mir: self.z_mir != rhs.z_mir,
        }
    }

    /// An orientation that when added to the input results in the default
    /// orientation.
    pub fn additive_complement(&self) -> (r: Self)
        ensures
            r == self.spec_complement(),
            self.spec_add(r) == Orientation::identity(),
    {
        proof {
            lemma_add_complement_is_identity(*self);
        }
        Orientation {
            x_mir: self.x_mir,
            y_mir: self.y_mir,
            z_mir: self.z_mir,
            x_rot: RotationAmount::Zero.sub(self.x_rot),
            y_rot: RotationAmount::Zero.sub(self.y_rot),
            z_rot: RotationAmount::Zero.sub(self.z_rot),
        }
    }

    /// Adds `amount` to the rotation around `axis`.
    pub fn rotate(&mut self, axis: Axis3D, amount: RotationAmount)
        ensures
            *final(self) == (match axis {
                Axis3D::X => Orientation { x_rot: old(self).x_rot.spec_add(amount), ..*old(self) },
                Axis3D::Y => Orientation { y_rot: old(self).y_rot.spec_add(amount), ..*old(self) },
                Axis3D::Z => Orientation { z_rot: old(self).z_rot.spec_add(amount), ..*old(self) },
            }),
    {
        match axis {
            Axis3D::X => {
                self.x_rot = self.x_rot.add(amount);
            },
            Axis3D::Y => {
                self.y_rot = self.y_rot.add(amount);
            },
            Axis3D::Z => {
                self.z_rot = self.z_rot.add(amount);
            },
        }
    }

    /// Toggles the mirror flag of `axis`.
    pub fn mirror(&mut self, axis: Axis3D)
        ensures
            *final(self) == (match axis {
                Axis3D::X => Orientation { x_mir: !old(self).x_mir, ..*old(self) },
                Axis3D::Y => Orientation { y_mir: !old(self).y_mir, ..*old(self) },
                Axis3D::Z => Orientation { z_mir: !old(self).z_mir, ..*old(self) },
            }),
    {
        match axis {
            Axis3D::X => {
                self.x_mir = !self.x_mir;
            },
            Axis3D::Y => {
                self.y_mir = !self.y_mir;
            },
            Axis3D::Z => {
                self.z_mir = !self.z_mir;
            },
        }
    }

    pub fn set_x_rot(&mut self, v: RotationAmount)
        ensures
            *final(self) == (Orientation { x_rot: v, ..*old(self) }),
    {
        self.x_rot = v;
    }

    pub fn set_y_rot(&mut self, v: RotationAmount)
        ensures
            *final(self) == (Orientation { y_rot: v, ..*old(self) }),
    {
        self.y_rot = v;
    }

    pub fn set_z_rot(&mut self, v: RotationAmount)
        ensures
            *final(self) == (Orientation { z_rot: v, ..*old(self) }),
    {
        self.z_rot = v;
    }

    pub fn set_x_mir(&mut self, v: bool)
        ensures
            *final(self) == (Orientation { x_mir: v, ..*old(self) }),
    {
        self.x_mir = v;
    }

    pub fn set_y_mir(&mut self, v: bool)
        ensures
            *final(self) == (Orientation { y_mir: v, ..*old(self) }),
    {
        self.y_mir = v;
    }

    pub fn set_z_mir(&mut self, v: bool)
        ensures
            *final(self) == (Orientation { z_mir: v, ..*old(self) }),
    {
        self.z_mir = v;
    }
}

/// Adding the complement of a rotation amount gives zero, in both orders.
pub proof fn lemma_rotation_complement(a: RotationAmount)
    ensures
        a.spec_add(a.inverted()) == RotationAmount::Zero,
        a.inverted().spec_add(a) == RotationAmount::Zero,
{
}

/// An orientation plus its additive complement is the identity.
pub proof fn lemma_add_complement_is_identity(o: Orientation)
    ensures
        o.spec_add(o.spec_complement()) == Orientation::identity(),
        o.spec_complement().spec_add(o) == Orientation::identity(),
{
    lemma_rotation_complement(o.x_rot);
    lemma_rotation_complement(o.y_rot);
    lemma_rotation_complement(o.z_rot);
}

/// Adding an amount and then its inverse restores the first amount.
pub proof fn lemma_rotation_add_cancel(a: RotationAmount, b: RotationAmount)
    ensures
        a.spec_add(b).spec_add(b.inverted()) == a,
{
    let ia = a.idx();
    let ib = b.idx();
    assert(((ia + ib) % 4 + (0 - ib) % 4) % 4 == ia) by (nonlinear_arith)
        requires
            0 <= ia < 4,
            0 <= ib < 4,
    ;
}

/// Composing with an orientation and then with its additive complement
/// restores the first orientation: the complement undoes the composition.
pub proof fn lemma_complement_cancels(base: Orientation, o: Orientation)
    ensures
        base.spec_add(o).spec_add(o.spec_complement()) == base,
{
    lemma_rotation_add_cancel(base.x_rot, o.x_rot);
    lemma_rotation_add_cancel(base.y_rot, o.y_rot);
    lemma_rotation_add_cancel(base.z_rot, o.z_rot);
}

/// Yields each of the 4 * 4 * 4 * 2 * 2 * 2 rotation/mirror combinations
/// exactly once.
#[derive(Debug)]
pub struct OrientationIterator {
    index: u16,
}

/// The orientation at one position of the enumeration; positions 0 through
/// 511 each decode to a distinct orientation.
pub open spec fn orientation_at(i: int) -> Orientation {
    Orientation {
        x_rot: RotationAmount::from_idx(i % 4),
        y_rot: RotationAmount::from_idx(i / 4 % 4),
        z_rot: RotationAmount::from_idx(i / 16 % 4),
        x_mir: i / 64 % 2 == 1,
        y_mir: i / 128 % 2 == 1,
        z_mir: i / 256 % 2 == 1,
    }
}

/// The position at which the enumeration yields the given orientation.
pub open spec fn index_of_orientation(o: Orientation) -> int {
    o.x_rot.idx() + 4 * o.y_rot.idx() + 16 * o.z_rot.idx() + 64 * (if o.x_mir {
        1int
    } else {
        0int
    }) + 128 * (if o.y_mir {
        1int
    } else {
        0int
    }) + 256 * (if o.z_mir {
        1int
    } else {
        0int
    })
}

/// The enumeration is complete: every orientation appears at its position,
/// which lies below 512.
pub proof fn lemma_every_orientation_is_enumerated(o: Orientation)
    ensures
        0 <= index_of_orientation(o) < 512,
        orientation_at(index_of_orientation(o)) == o,
{
    let xr = o.x_rot.idx();
    let yr = o.y_rot.idx();
    let zr = o.z_rot.idx();
    let xm: int = if o.x_mir {
        1
    } else {
        0
    };
    let ym: int = if o.y_mir {
        1
    } else {
        0
    };
    let zm: int = if o.z_mir {
        1
    } else {
        0
    };
    let i = index_of_orientation(o);
    assert(i == xr + 4 * (yr + 4 * (zr + 4 * (xm + 2 * (ym + 2 * zm)))));
    crate::numeric::lemma_mixed_digit(xr, yr + 4 * (zr + 4 * (xm + 2 * (ym + 2 * zm))), 4);
    crate::numeric::lemma_mixed_digit(yr, zr + 4 * (xm + 2 * (ym + 2 * zm)), 4);
    crate::numeric::lemma_mixed_digit(zr, xm + 2 * (ym + 2 * zm), 4);
    crate::numeric::lemma_mixed_digit(xm, ym + 2 * zm, 2);
    crate::numeric::lemma_mixed_digit(ym, zm, 2);
    crate::numeric::lemma_mixed_digit(zm, 0, 2);
    assert(i / 4 == yr + 4 * (zr + 4 * (xm + 2 * (ym + 2 * zm))));
    assert(i / 4 / 4 == zr + 4 * (xm + 2 * (ym + 2 * zm)));
    assert(i / 4 / 4 / 4 == xm + 2 * (ym + 2 * zm));
    assert(i / 4 / 4 / 4 / 2 == ym + 2 * zm);
    assert(i / 4 / 4 / 4 / 2 / 2 == zm);
    lemma_div_chain(i);
}

/// Chained divisions by constants collapse to division by their product.
proof fn lemma_div_chain(i: int)
    requires
        0 <= i,
    ensures
        i / 4 / 4 == i / 16,
        i / 4 / 4 / 4 == i / 64,
        i / 4 / 4 / 4 / 2 == i / 128,
        i / 4 / 4 / 4 / 2 / 2 == i / 256,
{
    vstd::arithmetic::div_mod::lemma_div_denominator(i, 4, 4);
    vstd::arithmetic::div_mod::lemma_div_denominator(i, 16, 4);
    vstd::arithmetic::div_mod::lemma_div_denominator(i, 64, 2);
    vstd::arithmetic::div_mod::lemma_div_denominator(i, 128, 2);
}

impl Default for OrientationIterator {
    fn default() -> (r: Self)
        ensures
            r.position() == 0,
    {
        OrientationIterator { index: 0 }
    }
}

impl OrientationIterator {
    /// How many orientations have been yielded so far.
    pub closed spec fn position(self) -> int {
        self.index as int
    }

    /// The next orientation of the enumeration, or `None` after all 512.
    pub fn next(&mut self) -> (r: Option<Orientation>)
        ensures
            old(self).position() < 512 ==> r == Some(orientation_at(old(self).position()))
                && final(self).position() == old(self).position() + 1,
            old(self).position() >= 512 ==> r is None && final(self).position() == old(
                self,
            ).position(),
    {
        if self.index >= 512 {
            return None;
        }
        let i: u16 = self.index;
        self.index = i + 1;
        Some(
            Orientation {
                x_rot: rotation_from_u16(i % 4),
                y_rot: rotation_from_u16(i / 4 % 4),
                z_rot: rotation_from_u16(i / 16 % 4),
                x_mir: i / 64 % 2 == 1,
                y_mir: i / 128 % 2 == 1,
                z_mir: i / 256 % 2 == 1,
            },
        )
    }
}

/// The rotation amount with the given number of quarter turns.
fn rotation_from_u16(v: u16) -> (r: RotationAmount)
    requires
        v < 4,
    ensures
        r == RotationAmount::from_idx(v as int),
{
    if v == 1 {
        RotationAmount::Ninety
    } else if v == 2 {
        RotationAmount::OneEighty
    } else if v == 3 {
        RotationAmount::TwoSeventy
    } else {
        RotationAmount::Zero
    }
}

} // verus!
