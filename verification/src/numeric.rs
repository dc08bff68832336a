use vstd::prelude::*;

verus! {

/// Integer division truncated toward zero, for a positive divisor; this is
/// the division the machine performs on signed integers.
pub open spec fn tdiv(a: int, b: int) -> int {
    if a >= 0 {
        a / b
    } else {
        -((-a) / b)
    }
}

/// `s / n` rounded to the nearest integer, halves away from zero, for
/// `s >= 0` and `n > 0`.
pub open spec fn round_div(s: int, n: int) -> int {
    (2 * s + n) / (2 * n)
}

/// For one mixed-radix digit: a value `d + b * rest` with `0 <= d < b` has
/// remainder `d` and quotient `rest` when divided by `b`.
pub proof fn lemma_mixed_digit(d: int, rest: int, b: int)
    requires
        0 <= d < b,
        0 <= rest,
    ensures
        (d + b * rest) % b == d,
        (d + b * rest) / b == rest,
{
    assert((d + b * rest) % b == d && (d + b * rest) / b == rest) by (nonlinear_arith)
        requires
            0 <= d < b,
            0 <= rest,
    ;
}

/// Truncating division of a signed value by a positive divisor, both within
/// comfortable machine bounds.
pub fn tdiv_i64(a: i64, b: i64) -> (r: i64)
    requires
        0 < b,
        -0x4000_0000_0000_0000 <= a <= 0x4000_0000_0000_0000,
    ensures
        r == tdiv(a as int, b as int),
{
    if a >= 0 {
        a / b
    } else {
        -((-a) / b)
    }
}

/// The integer square root: the largest `r` with `r * r <= n`.
pub open spec fn sqrt_floor(n: int) -> int
    recommends
        n >= 0,
    decreases n,
{
    if n <= 0 {
        0
    } else {
        let r = sqrt_floor(n - 1);
        if (r + 1) * (r + 1) <= n {
            r + 1
        } else {
            r
        }
    }
}

pub proof fn lemma_sqrt_floor_bounds(n: int)
    requires
        n >= 0,
    ensures
        0 <= sqrt_floor(n),
        sqrt_floor(n) * sqrt_floor(n) <= n,
        n < (sqrt_floor(n) + 1) * (sqrt_floor(n) + 1),
    decreases n,
{
    if n > 0 {
        lemma_sqrt_floor_bounds(n - 1);
        let r = sqrt_floor(n - 1);
        if (r + 1) * (r + 1) <= n {
            assert(sqrt_floor(n) == r + 1);
            assert(n <= (r + 1) * (r + 1));
            assert(n < ((r + 1) + 1) * ((r + 1) + 1)) by (nonlinear_arith)
                requires
                    n <= (r + 1) * (r + 1),
                    0 <= r,
            ;
        } else {
            assert(sqrt_floor(n) == r);
        }
    }
}

/// Any `r` whose square brackets `n` is the integer square root of `n`.
pub proof fn lemma_sqrt_floor_unique(n: int, r: int)
    requires
        0 <= n,
        0 <= r,
        r * r <= n,
        n < (r + 1) * (r + 1),
    ensures
        r == sqrt_floor(n),
{
    let s = sqrt_floor(n);
    lemma_sqrt_floor_bounds(n);
    if r < s {
        assert((r + 1) * (r + 1) <= s * s) by (nonlinear_arith)
            requires
                r + 1 <= s,
                0 <= r,
        ;
    }
    if s < r {
        assert((s + 1) * (s + 1) <= r * r) by (nonlinear_arith)
            requires
                s + 1 <= r,
                0 <= s,
        ;
    }
}

/// The integer square root of a wide value, by bisection.
pub fn isqrt_u128(x: u128) -> (r: u128)
    requires
        x < 0x100_0000_0000_0000_0000,
    ensures
        r == sqrt_floor(x as int),
{
    let mut lo: u128 = 0;
    let mut hi: u128 = if x < 0x10_0000_0000 {
        x
    } else {
        0xF_FFFF_FFFF
    };
    proof {
        assert(x < (hi + 1) * (hi + 1)) by (nonlinear_arith)
            requires
                (x < 0x10_0000_0000 && hi == x) || (hi == 0xF_FFFF_FFFF && x
                    < 0x100_0000_0000_0000_0000),
        ;
    }
    while lo < hi
        invariant
            lo <= hi <= 0xF_FFFF_FFFF,
            lo * lo <= x,
            x < (hi + 1) * (hi + 1),
        decreases hi - lo,
    {
        let mid: u128 = lo + (hi - lo + 1) / 2;
        proof {
            assert(mid * mid <= 0xF_FFFF_FFFF * 0xF_FFFF_FFFF) by (nonlinear_arith)
                requires
                    0 <= mid <= 0xF_FFFF_FFFF,
            ;
        }
        if mid * mid <= x {
            lo = mid;
        } else {
            hi = mid - 1;
        }
    }
    proof {
        lemma_sqrt_floor_unique(x as int, lo as int);
    }
    lo
}

/// Dividing an exact multiple gives back the factor.
pub proof fn lemma_tdiv_exact(t: int, n: int)
    requires
        0 < n,
    ensures
        tdiv(n * t, n) == t,
{
    if n * t >= 0 {
        assert((n * t) / n == t) by (nonlinear_arith)
            requires
                0 < n,
                n * t >= 0,
        ;
    } else {
        assert((-(n * t)) / n == -t) by (nonlinear_arith)
            requires
                0 < n,
                n * t < 0,
        ;
    }
}

/// Rounded division of non-negative machine values.
pub fn round_div_u64(s: u64, n: u64) -> (r: u64)
    requires
        0 < n <= 0x1000_0000,
        s <= 0x1000_0000_0000_0000,
    ensures
        r == round_div(s as int, n as int),
        r <= s,
{
    let q: u64 = (2 * s + n) / (2 * n);
    proof {
        assert((2 * s + n) / (2 * n) <= s) by (nonlinear_arith)
            requires
                0 < n,
                0 <= s,
        ;
    }
    q
}

/// The sum of `f` over a finite set.
pub open spec fn set_sum<A>(s: Set<A>, f: spec_fn(A) -> int) -> int {
    s.fold(0, |acc: int, a: A| acc + f(a))
}

/// Summation is insensitive to the order in which elements are taken.
pub proof fn lemma_sum_step_commutative<A>(f: spec_fn(A) -> int)
    ensures
        vstd::set::fold::is_fun_commutative(|acc: int, a: A| acc + f(a)),
{
}

/// The sum over the empty set is zero.
pub proof fn lemma_set_sum_empty<A>(f: spec_fn(A) -> int)
    ensures
        set_sum(Set::<A>::empty(), f) == 0,
{
    vstd::set::fold::lemma_fold_empty(0int, |acc: int, a: A| acc + f(a));
}

/// Inserting a fresh element adds its value to the sum.
pub proof fn lemma_set_sum_insert<A>(s: Set<A>, f: spec_fn(A) -> int, a: A)
    requires
        s.finite(),
        !s.contains(a),
    ensures
        set_sum(s.insert(a), f) == set_sum(s, f) + f(a),
{
    lemma_sum_step_commutative(f);
    vstd::set::fold::lemma_fold_insert(s, 0int, |acc: int, a: A| acc + f(a), a);
}

/// The image of a set under a map.
pub open spec fn map_image<A, B>(s: Set<A>, h: spec_fn(A) -> B) -> Set<B> {
    Set::new(|y: B| exists|q: A| #[trigger] s.contains(q) && h(q) == y)
}

/// A map that is injective on a finite set carries it to an image of the
/// same size, and sums of matching functions agree.
pub proof fn lemma_set_sum_map<A, B>(
    s: Set<A>,
    h: spec_fn(A) -> B,
    f: spec_fn(A) -> int,
    g: spec_fn(B) -> int,
)
    requires
        s.finite(),
        forall|q1: A, q2: A|
            s.contains(q1) && s.contains(q2) && #[trigger] h(q1) == #[trigger] h(q2) ==> q1 == q2,
        forall|q: A| #[trigger] s.contains(q) ==> g(h(q)) == f(q),
    ensures
        map_image(s, h).finite(),
        map_image(s, h).len() == s.len(),
        set_sum(map_image(s, h), g) == set_sum(s, f),
    decreases s.len(),
{
    if s.len() == 0 {
        assert(s =~= Set::empty());
        assert(map_image(s, h) =~= Set::<B>::empty());
        lemma_set_sum_empty(f);
        lemma_set_sum_empty(g);
    } else {
        let a = s.choose();
        assert(s.contains(a));
        let s0 = s.remove(a);
        lemma_set_sum_map(s0, h, f, g);
        assert forall|y: B|
            map_image(s, h).contains(y) <==> map_image(s0, h).insert(h(a)).contains(y) by {
            if map_image(s, h).contains(y) {
                let q = choose|q: A| #[trigger] s.contains(q) && h(q) == y;
                if q != a {
                    assert(s0.contains(q) && h(q) == y);
                }
            }
            if map_image(s0, h).insert(h(a)).contains(y) {
                if y == h(a) {
                    assert(s.contains(a) && h(a) == y);
                } else {
                    let q = choose|q: A| #[trigger] s0.contains(q) && h(q) == y;
                    assert(s.contains(q) && h(q) == y);
                }
            }
        }
        assert(map_image(s, h) =~= map_image(s0, h).insert(h(a)));
        assert(!map_image(s0, h).contains(h(a))) by {
            if map_image(s0, h).contains(h(a)) {
                let q = choose|q: A| #[trigger] s0.contains(q) && h(q) == h(a);
            }
        }
        assert(s =~= s0.insert(a));
        assert(!s0.contains(a));
        lemma_set_sum_insert(s0, f, a);
        lemma_set_sum_insert(map_image(s0, h), g, h(a));
    }
}

/// A subset of a finite set of the same size is the whole set.
pub proof fn lemma_subset_equal_len<A>(s: Set<A>, t: Set<A>)
    requires
        s.finite(),
        t.finite(),
        forall|x: A| s.contains(x) ==> t.contains(x),
        s.len() == t.len(),
    ensures
        s == t,
    decreases s.len(),
{
    if s.len() == 0 {
        s.lemma_len0_is_empty();
        t.lemma_len0_is_empty();
        assert(s =~= t);
    } else {
        let a = s.choose();
        assert(s.contains(a));
        assert(t.contains(a));
        lemma_subset_equal_len(s.remove(a), t.remove(a));
        assert forall|x: A| t.contains(x) implies s.contains(x) by {
            if x != a {
                assert(t.remove(a).contains(x));
                assert(s.remove(a).contains(x));
            }
        }
        assert(s =~= t);
    }
}

/// Every element's value lying in a band bounds the sum by the band times
/// the cardinality.
pub proof fn lemma_set_sum_bound<A>(s: Set<A>, f: spec_fn(A) -> int, lo: int, hi: int)
    requires
        s.finite(),
        forall|a: A| #[trigger] s.contains(a) ==> lo <= f(a) <= hi,
    ensures
        s.len() * lo <= set_sum(s, f) <= s.len() * hi,
    decreases s.len(),
{
    if s.len() == 0 {
        assert(s =~= Set::empty());
        lemma_set_sum_empty(f);
    } else {
        let a = s.choose();
        assert(s.contains(a));
        let s0 = s.remove(a);
        lemma_set_sum_bound(s0, f, lo, hi);
        lemma_set_sum_insert(s0, f, a);
        assert(s0.insert(a) =~= s);
        assert(s0.len() * lo + lo == s.len() * lo && s0.len() * hi + hi == s.len() * hi)
            by (nonlinear_arith)
            requires
                s0.len() + 1 == s.len(),
        ;
    }
}

/// The magnitude of a truncated quotient never exceeds the magnitude of a
/// bound on the dividend: if `|a| <= m * b` then `|tdiv(a, b)| <= m`.
pub proof fn lemma_tdiv_bound(a: int, b: int, m: int)
    requires
        0 < b,
        0 <= m,
        -(m * b) <= a <= m * b,
    ensures
        -m <= tdiv(a, b) <= m,
{
    if a >= 0 {
        assert(a / b <= m && a / b >= 0) by (nonlinear_arith)
            requires
                0 < b,
                0 <= m,
                0 <= a <= m * b,
        ;
    } else {
        assert((-a) / b <= m && (-a) / b >= 0) by (nonlinear_arith)
            requires
                0 < b,
                0 <= m,
                0 <= -a <= m * b,
        ;
    }
}

} // verus!
