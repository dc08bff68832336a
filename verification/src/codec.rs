use vstd::prelude::*;
use crate::block_hash::BlockHash;
use crate::numeric::lemma_mixed_digit;
use crate::orientation::{Orientation, RotationAmount};
use crate::point::Finite3DDimension;

verus! {

/// The four little-endian bytes of a 32-bit value.
pub open spec fn u32_bytes(v: u32) -> Seq<u8> {
    seq![
        (v % 256) as u8,
        (v / 256 % 256) as u8,
        (v / 65536 % 256) as u8,
        (v / 16777216 % 256) as u8,
    ]
}

/// The eight little-endian bytes of a 64-bit value.
pub open spec fn u64_bytes(v: u64) -> Seq<u8> {
    u32_bytes((v % 0x1_0000_0000) as u32) + u32_bytes((v / 0x1_0000_0000) as u32)
}

/// A value is recovered from its little-endian bytes.
proof fn lemma_u32_digits(v: u32)
    ensures
        v == (v % 256) + 256 * ((v / 256 % 256) + 256 * ((v / 65536 % 256) + 256 * (v / 16777216
            % 256))),
        v / 16777216 % 256 == v / 16777216,
{
    vstd::arithmetic::div_mod::lemma_fundamental_div_mod(v as int, 256);
    vstd::arithmetic::div_mod::lemma_fundamental_div_mod(v as int / 256, 256);
    vstd::arithmetic::div_mod::lemma_fundamental_div_mod(v as int / 256 / 256, 256);
    vstd::arithmetic::div_mod::lemma_div_denominator(v as int, 256, 256);
    vstd::arithmetic::div_mod::lemma_div_denominator(v as int, 65536, 256);
    vstd::arithmetic::div_mod::lemma_mod_bound(v as int / 16777216, 256);
    assert(0 <= v as int / 16777216 < 256) by (nonlinear_arith)
        requires
            0 <= v < 0x1_0000_0000,
    ;
    vstd::arithmetic::div_mod::lemma_small_mod((v as int / 16777216) as nat, 256);
}

/// Appends the four little-endian bytes of `v`.
pub(crate) fn push_u32(out: &mut Vec<u8>, v: u32)
    ensures
        final(out)@ == old(out)@ + u32_bytes(v),
{
    out.push((v % 256) as u8);
    out.push((v / 256 % 256) as u8);
    out.push((v / 65536 % 256) as u8);
    out.push((v / 16777216 % 256) as u8);
    proof {
        assert(out@ =~= old(out)@ + u32_bytes(v));
    }
}

/// Reads four little-endian bytes as a 32-bit value.
pub(crate) fn read_u32(b: &Vec<u8>, pos: usize) -> (r: Option<(u32, usize)>)
    ensures
        r is Some <==> pos + 4 <= b@.len(),
        r is Some ==> ({
            let (v, p2) = r->Some_0;
            &&& p2 == pos + 4
            &&& u32_bytes(v) == b@.subrange(pos as int, pos as int + 4)
        }),
{
    if pos >= b.len() || b.len() - pos < 4 {
        return None;
    }
    let b0: u32 = b[pos] as u32;
    let b1: u32 = b[pos + 1] as u32;
    let b2: u32 = b[pos + 2] as u32;
    let b3: u32 = b[pos + 3] as u32;
    let v: u32 = b0 + 256 * (b1 + 256 * (b2 + 256 * b3));
    proof {
        lemma_mixed_digit(b0 as int, b1 + 256 * (b2 + 256 * b3), 256);
        lemma_mixed_digit(b1 as int, b2 + 256 * b3, 256);
        lemma_mixed_digit(b2 as int, b3 as int, 256);
        lemma_mixed_digit(b3 as int, 0, 256);
        vstd::arithmetic::div_mod::lemma_div_denominator(v as int, 256, 256);
        vstd::arithmetic::div_mod::lemma_div_denominator(v as int, 65536, 256);
        assert(v % 256 == b0 && v / 256 % 256 == b1 && v / 65536 % 256 == b2 && v / 16777216 % 256
            == b3);
        assert(u32_bytes(v) =~= b@.subrange(pos as int, pos as int + 4));
    }
    Some((v, pos + 4))
}

/// Appends the eight little-endian bytes of `v`.
fn push_u64(out: &mut Vec<u8>, v: u64)
    ensures
        final(out)@ == old(out)@ + u64_bytes(v),
{
    push_u32(out, (v % 0x1_0000_0000) as u32);
    push_u32(out, (v / 0x1_0000_0000) as u32);
    proof {
        assert(out@ =~= old(out)@ + u64_bytes(v));
    }
}

/// Reads eight little-endian bytes as a 64-bit value.
fn read_u64(b: &Vec<u8>, pos: usize) -> (r: Option<(u64, usize)>)
    ensures
        r is Some <==> pos + 8 <= b@.len(),
        r is Some ==> ({
            let (v, p2) = r->Some_0;
            &&& p2 == pos + 8
            &&& u64_bytes(v) == b@.subrange(pos as int, pos as int + 8)
        }),
{
    let first = read_u32(b, pos);
    match first {
        None => {
            proof {
                assert(pos + 8 > b@.len());
            }
            None
        },
        Some((lo, p1)) => {
            match read_u32(b, p1) {
                None => None,
                Some((hi, p2)) => {
                    let v: u64 = lo as u64 + 0x1_0000_0000 * (hi as u64);
                    proof {
                        lemma_mixed_digit(lo as int, hi as int, 0x1_0000_0000);
                        assert(v % 0x1_0000_0000 == lo && v / 0x1_0000_0000 == hi);
                        assert(u64_bytes(v) =~= b@.subrange(pos as int, pos as int + 8));
                    }
                    Some((v, p2))
                },
            }
        },
    }
}

/// The two halves of a 64-bit value pin it.
proof fn lemma_u64_bytes_parts(v: u64)
    ensures
        v == (v % 0x1_0000_0000) + 0x1_0000_0000 * (v / 0x1_0000_0000),
        0 <= v / 0x1_0000_0000 < 0x1_0000_0000,
{
    vstd::arithmetic::div_mod::lemma_fundamental_div_mod(v as int, 0x1_0000_0000);
    assert(0 <= v as int / 0x1_0000_0000 < 0x1_0000_0000) by (nonlinear_arith)
        requires
            0 <= v <= 0xFFFF_FFFF_FFFF_FFFF,
    ;
}

/// Equal byte strings decode to equal 32-bit values.
pub proof fn lemma_u32_bytes_injective(a: u32, b: u32)
    requires
        u32_bytes(a) == u32_bytes(b),
    ensures
        a == b,
{
    lemma_u32_digits(a);
    lemma_u32_digits(b);
    assert(u32_bytes(a)[0] == u32_bytes(b)[0] && u32_bytes(a)[1] == u32_bytes(b)[1] && u32_bytes(
        a,
    )[2] == u32_bytes(b)[2] && u32_bytes(a)[3] == u32_bytes(b)[3]);
}

/// Equal byte strings decode to equal 64-bit values.
pub proof fn lemma_u64_bytes_injective(a: u64, b: u64)
    requires
        u64_bytes(a) == u64_bytes(b),
    ensures
        a == b,
{
    let alo = (a % 0x1_0000_0000) as u32;
    let ahi = (a / 0x1_0000_0000) as u32;
    let blo = (b % 0x1_0000_0000) as u32;
    let bhi = (b / 0x1_0000_0000) as u32;
    lemma_u64_bytes_parts(a);
    lemma_u64_bytes_parts(b);
    assert(u32_bytes(alo) =~= u64_bytes(a).subrange(0, 4));
    assert(u32_bytes(ahi) =~= u64_bytes(a).subrange(4, 8));
    assert(u32_bytes(blo) =~= u64_bytes(b).subrange(0, 4));
    assert(u32_bytes(bhi) =~= u64_bytes(b).subrange(4, 8));
    lemma_u32_bytes_injective(alo, blo);
    lemma_u32_bytes_injective(ahi, bhi);
}

/// The byte string of a bounding box: its six reaches.
pub open spec fn dim_bytes(d: Finite3DDimension) -> Seq<u8> {
    u32_bytes(d.x_pos) + u32_bytes(d.x_neg) + u32_bytes(d.y_pos) + u32_bytes(d.y_neg) + u32_bytes(
        d.z_pos,
    ) + u32_bytes(d.z_neg)
}

pub open spec fn rot_byte(r: RotationAmount) -> u8 {
    r.idx() as u8
}

pub open spec fn mir_byte(m: bool) -> u8 {
    if m {
        1u8
    } else {
        0u8
    }
}

/// The byte string of an orientation: three rotation amounts, then three
/// mirror flags.
pub open spec fn orient_bytes(o: Orientation) -> Seq<u8> {
    seq![
        rot_byte(o.x_rot),
        rot_byte(o.y_rot),
        rot_byte(o.z_rot),
        mir_byte(o.x_mir),
        mir_byte(o.y_mir),
        mir_byte(o.z_mir),
    ]
}

/// The byte string of a fingerprint.
pub open spec fn hash_bytes(h: BlockHash) -> Seq<u8> {
    seq![h.num_blocks] + u64_bytes(h.density) + u64_bytes(h.align_low) + u64_bytes(h.align_mid)
        + u64_bytes(h.align_high)
}

/// Appends the byte string of a bounding box.
pub fn push_dim(out: &mut Vec<u8>, d: Finite3DDimension)
    ensures
        final(out)@ == old(out)@ + dim_bytes(d),
{
    push_u32(out, d.x_pos);
    push_u32(out, d.x_neg);
    push_u32(out, d.y_pos);
    push_u32(out, d.y_neg);
    push_u32(out, d.z_pos);
    push_u32(out, d.z_neg);
    proof {
        assert(out@ =~= old(out)@ + dim_bytes(d));
    }
}

/// Reads the byte string of a bounding box.
pub fn read_dim(b: &Vec<u8>, pos: usize) -> (r: Option<(Finite3DDimension, usize)>)
    ensures
        r is Some <==> pos + 24 <= b@.len(),
        r is Some ==> ({
            let (d, p2) = r->Some_0;
            &&& p2 == pos + 24
            &&& dim_bytes(d) == b@.subrange(pos as int, pos as int + 24)
        }),
{
    if pos >= b.len() || b.len() - pos < 24 {
        return None;
    }
    let (x_pos, p1) = read_u32(b, pos).unwrap();
    let (x_neg, p2) = read_u32(b, p1).unwrap();
    let (y_pos, p3) = read_u32(b, p2).unwrap();
    let (y_neg, p4) = read_u32(b, p3).unwrap();
    let (z_pos, p5) = read_u32(b, p4).unwrap();
    let (z_neg, p6) = read_u32(b, p5).unwrap();
    let d = Finite3DDimension { x_pos, x_neg, y_pos, y_neg, z_pos, z_neg };
    proof {
        assert(dim_bytes(d) =~= b@.subrange(pos as int, pos as int + 24));
    }
    Some((d, p6))
}

/// Appends the byte string of an orientation.
pub fn push_orientation(out: &mut Vec<u8>, o: Orientation)
    ensures
        final(out)@ == old(out)@ + orient_bytes(o),
{
    out.push(rotation_to_byte(o.x_rot));
    out.push(rotation_to_byte(o.y_rot));
    out.push(rotation_to_byte(o.z_rot));
    out.push(if o.x_mir { 1u8 } else { 0u8 });
    out.push(if o.y_mir { 1u8 } else { 0u8 });
    out.push(if o.z_mir { 1u8 } else { 0u8 });
    proof {
        assert(out@ =~= old(out)@ + orient_bytes(o));
    }
}

/// The number of quarter turns of a rotation amount, as a byte.
fn rotation_to_byte(r: RotationAmount) -> (b: u8)
    ensures
        b == rot_byte(r),
{
    match r {
        RotationAmount::Zero => 0,
        RotationAmount::Ninety => 1,
        RotationAmount::OneEighty => 2,
        RotationAmount::TwoSeventy => 3,
    }
}

/// Reads the byte string of an orientation; bytes outside the encoding are
/// rejected.
#[verifier::rlimit(100)]
pub fn read_orientation(b: &Vec<u8>, pos: usize) -> (r: Option<(Orientation, usize)>)
    ensures
        r is Some ==> pos + 6 <= b@.len(),
        r is Some ==> ({
            let (o, p2) = r->Some_0;
            &&& p2 == pos + 6
            &&& orient_bytes(o) == b@.subrange(pos as int, pos as int + 6)
        }),
        forall|o: Orientation|
            pos + 6 <= b@.len() && b@.subrange(pos as int, pos as int + 6) == #[trigger] orient_bytes(
                o,
            ) ==> r == Some((o, (pos + 6) as usize)),
{
    if pos >= b.len() || b.len() - pos < 6 {
        return None;
    }
    let r0 = b[pos];
    let r1 = b[pos + 1];
    let r2 = b[pos + 2];
    let m0 = b[pos + 3];
    let m1 = b[pos + 4];
    let m2 = b[pos + 5];
    if r0 > 3 || r1 > 3 || r2 > 3 || m0 > 1 || m1 > 1 || m2 > 1 {
        proof {
            assert forall|o: Orientation|
                pos + 6 <= b@.len() && b@.subrange(pos as int, pos as int + 6)
                    == #[trigger] orient_bytes(o) implies false by {
                assert(b@[pos as int] == rot_byte(o.x_rot));
                assert(b@[pos as int + 1] == rot_byte(o.y_rot));
                assert(b@[pos as int + 2] == rot_byte(o.z_rot));
                assert(b@[pos as int + 3] == mir_byte(o.x_mir));
                assert(b@[pos as int + 4] == mir_byte(o.y_mir));
                assert(b@[pos as int + 5] == mir_byte(o.z_mir));
            }
        }
        return None;
    }
    let o = Orientation {
        x_rot: rotation_from_byte(r0),
        y_rot: rotation_from_byte(r1),
        z_rot: rotation_from_byte(r2),
        x_mir: m0 == 1,
        y_mir: m1 == 1,
        z_mir: m2 == 1,
    };
    proof {
        assert(orient_bytes(o) =~= b@.subrange(pos as int, pos as int + 6));
        assert forall|o2: Orientation|
            pos + 6 <= b@.len() && b@.subrange(pos as int, pos as int + 6)
                == #[trigger] orient_bytes(o2) implies o == o2 by {
            assert(rot_byte(o2.x_rot) == r0 && rot_byte(o2.y_rot) == r1 && rot_byte(o2.z_rot)
                == r2);
            assert(mir_byte(o2.x_mir) == m0 && mir_byte(o2.y_mir) == m1 && mir_byte(o2.z_mir)
                == m2);
        }
    }
    Some((o, pos + 6))
}

/// The rotation amount with the given number of quarter turns.
fn rotation_from_byte(v: u8) -> (r: RotationAmount)
    requires
        v <= 3,
    ensures
        r == RotationAmount::from_idx(v as int),
        rot_byte(r) == v,
{
    if v == 1 {
        RotationAmount::Ninety
    } else if v == 2 {
        RotationAmount::OneEighty
    } else if v == 3 {
        RotationAmount::TwoSeventy
    } else {
        RotationAmount::Zero
    }
}

/// Equal byte strings decode to equal boxes.
#[verifier::rlimit(100)]
pub proof fn lemma_dim_bytes_injective(a: Finite3DDimension, b: Finite3DDimension)
    requires
        dim_bytes(a) == dim_bytes(b),
    ensures
        a == b,
{
    assert(u32_bytes(a.x_pos) =~= dim_bytes(a).subrange(0, 4));
    assert(u32_bytes(a.x_neg) =~= dim_bytes(a).subrange(4, 8));
    assert(u32_bytes(a.y_pos) =~= dim_bytes(a).subrange(8, 12));
    assert(u32_bytes(a.y_neg) =~= dim_bytes(a).subrange(12, 16));
    assert(u32_bytes(a.z_pos) =~= dim_bytes(a).subrange(16, 20));
    assert(u32_bytes(a.z_neg) =~= dim_bytes(a).subrange(20, 24));
    assert(u32_bytes(b.x_pos) =~= dim_bytes(b).subrange(0, 4));
    assert(u32_bytes(b.x_neg) =~= dim_bytes(b).subrange(4, 8));
    assert(u32_bytes(b.y_pos) =~= dim_bytes(b).subrange(8, 12));
    assert(u32_bytes(b.y_neg) =~= dim_bytes(b).subrange(12, 16));
    assert(u32_bytes(b.z_pos) =~= dim_bytes(b).subrange(16, 20));
    assert(u32_bytes(b.z_neg) =~= dim_bytes(b).subrange(20, 24));
    lemma_u32_bytes_injective(a.x_pos, b.x_pos);
    lemma_u32_bytes_injective(a.x_neg, b.x_neg);
    lemma_u32_bytes_injective(a.y_pos, b.y_pos);
    lemma_u32_bytes_injective(a.y_neg, b.y_neg);
    lemma_u32_bytes_injective(a.z_pos, b.z_pos);
    lemma_u32_bytes_injective(a.z_neg, b.z_neg);
}

/// Equal byte strings decode to equal fingerprints.
#[verifier::rlimit(100)]
pub proof fn lemma_hash_bytes_injective(a: BlockHash, b: BlockHash)
    requires
        hash_bytes(a) == hash_bytes(b),
    ensures
        a == b,
{
    assert(a.num_blocks == hash_bytes(a)[0] && b.num_blocks == hash_bytes(b)[0]);
    assert(u64_bytes(a.density) =~= hash_bytes(a).subrange(1, 9));
    assert(u64_bytes(b.density) =~= hash_bytes(b).subrange(1, 9));
    assert(u64_bytes(a.align_low) =~= hash_bytes(a).subrange(9, 17));
    assert(u64_bytes(b.align_low) =~= hash_bytes(b).subrange(9, 17));
    assert(u64_bytes(a.align_mid) =~= hash_bytes(a).subrange(17, 25));
    assert(u64_bytes(b.align_mid) =~= hash_bytes(b).subrange(17, 25));
    assert(u64_bytes(a.align_high) =~= hash_bytes(a).subrange(25, 33));
    assert(u64_bytes(b.align_high) =~= hash_bytes(b).subrange(25, 33));
    lemma_u64_bytes_injective(a.density, b.density);
    lemma_u64_bytes_injective(a.align_low, b.align_low);
    lemma_u64_bytes_injective(a.align_mid, b.align_mid);
    lemma_u64_bytes_injective(a.align_high, b.align_high);
}

/// Equal byte strings decode to equal orientations.
pub proof fn lemma_orient_bytes_injective(a: Orientation, b: Orientation)
    requires
        orient_bytes(a) == orient_bytes(b),
    ensures
        a == b,
{
    assert(orient_bytes(a)[0] == orient_bytes(b)[0]);
    assert(orient_bytes(a)[1] == orient_bytes(b)[1]);
    assert(orient_bytes(a)[2] == orient_bytes(b)[2]);
    assert(orient_bytes(a)[3] == orient_bytes(b)[3]);
    assert(orient_bytes(a)[4] == orient_bytes(b)[4]);
    assert(orient_bytes(a)[5] == orient_bytes(b)[5]);
}

/// Appends the byte string of a fingerprint.
pub fn encode_hash(h: &BlockHash, out: &mut Vec<u8>)
    ensures
        final(out)@ == old(out)@ + hash_bytes(*h),
{
    out.push(h.num_blocks);
    push_u64(out, h.density);
    push_u64(out, h.align_low);
    push_u64(out, h.align_mid);
    push_u64(out, h.align_high);
    proof {
        assert(out@ =~= old(out)@ + hash_bytes(*h));
    }
}

/// Reads the byte string of a fingerprint: the round trip of `encode_hash`.
#[verifier::rlimit(100)]
pub fn decode_hash(b: &Vec<u8>, pos: usize) -> (r: Option<(BlockHash, usize)>)
    ensures
        r is Some <==> pos + 33 <= b@.len(),
        r is Some ==> ({
            let (h, p2) = r->Some_0;
            &&& p2 == pos + 33
            &&& hash_bytes(h) == b@.subrange(pos as int, pos as int + 33)
        }),
        forall|h: BlockHash|
            pos + 33 <= b@.len() && b@.subrange(pos as int, pos as int + 33) == #[trigger] hash_bytes(
                h,
            ) ==> r == Some((h, (pos + 33) as usize)),
{
    if pos >= b.len() || b.len() - pos < 33 {
        return None;
    }
    let num_blocks = b[pos];
    let (density, p1) = read_u64(b, pos + 1).unwrap();
    let (align_low, p2) = read_u64(b, p1).unwrap();
    let (align_mid, p3) = read_u64(b, p2).unwrap();
    let (align_high, p4) = read_u64(b, p3).unwrap();
    let h = BlockHash { num_blocks, density, align_low, align_mid, align_high };
    proof {
        assert(hash_bytes(h) =~= b@.subrange(pos as int, pos as int + 33));
        assert forall|h2: BlockHash|
            pos + 33 <= b@.len() && b@.subrange(pos as int, pos as int + 33)
                == #[trigger] hash_bytes(h2) implies h == h2 by {
            lemma_hash_bytes_injective(h, h2);
        }
    }
    Some((h, p4))
}

} // verus!
