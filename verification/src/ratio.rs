//! Ratio vectors and their resolution to group sizes.
//!
//! A ratio vector gives each group an integer weight over a common scale:
//! group `g` is to take `nums[g] / den` of the input. Weights are exact,
//! so validity (no negative weight, positive scale, total at most one)
//! and the three rounding policies are decided by integer arithmetic, and
//! every policy provably allocates at most the whole input.

use crate::error::GroupingError;
use crate::size_rounding::SizeRounding;
use crate::sums::{lemma_sum_prefix_push, sum_all, sum_prefix};
use vstd::arithmetic::div_mod::{
    lemma_div_is_ordered, lemma_div_multiples_vanish, lemma_div_pos_is_pos,
    lemma_fundamental_div_mod, lemma_fundamental_div_mod_converse,
};
use vstd::arithmetic::mul::lemma_mul_inequality;
use vstd::math::min;
use vstd::prelude::*;

verus! {

/// Group ratios as integer weights over a common scale.
///
/// A zero scale does not denote ratios at all, and a negative weight does
/// not denote a ratio; both are rejected wherever the vector is used.
pub struct Ratios {
    /// One weight per group.
    pub nums: Vec<i64>,
    /// The common scale.
    pub den: u64,
}

impl Ratios {
    /// Ratio vector giving group `g` the ratio `nums[g] / den`.
    pub fn new(nums: Vec<i64>, den: u64) -> (r: Ratios)
        ensures
            r.nums == nums,
            r.den == den,
    {
        Ratios { nums, den }
    }
}

/// Sum of the first `n` weights.
pub open spec fn num_prefix(nums: Seq<i64>, n: int) -> int
    decreases n,
{
    if n <= 0 {
        0
    } else {
        num_prefix(nums, n - 1) + nums[n - 1]
    }
}

/// Sum of all weights.
pub open spec fn num_total(nums: Seq<i64>) -> int {
    num_prefix(nums, nums.len() as int)
}

/// The vector denotes ratios: positive scale, no negative weight.
pub open spec fn ratios_wellformed(nums: Seq<i64>, den: u64) -> bool {
    &&& den > 0
    &&& forall|i: int| 0 <= i < nums.len() ==> nums[i] >= 0
}

/// The ratios sum to at most one.
pub open spec fn ratios_fit(nums: Seq<i64>, den: u64) -> bool {
    num_total(nums) <= den
}

/// `a / d`, rounded half away from zero (half-up, as both are non-negative
/// wherever this is used).
pub open spec fn round_div(a: int, d: int) -> int {
    a / d + if 2 * (a % d) >= d {
        1int
    } else {
        0int
    }
}

/// Prefix sums of non-negative weights never decrease.
pub proof fn lemma_num_prefix_monotone(nums: Seq<i64>, i: int, j: int)
    requires
        forall|p: int| 0 <= p < nums.len() ==> nums[p] >= 0,
        0 <= i <= j <= nums.len(),
    ensures
        num_prefix(nums, i) <= num_prefix(nums, j),
    decreases j - i,
{
    if i < j {
        lemma_num_prefix_monotone(nums, i, j - 1);
    }
}

/// Rounding half-up is one floor division at twice the scale.
pub proof fn lemma_round_div_as_div(a: int, d: int)
    requires
        0 < d,
    ensures
        round_div(a, d) == (2 * a + d) / (2 * d),
{
    let q = a / d;
    let r = a % d;
    lemma_fundamental_div_mod(a, d);
    if 2 * r >= d {
        assert(2 * a + d == (q + 1) * (2 * d) + (2 * r - d)) by (nonlinear_arith)
            requires
                a == d * q + r,
        ;
        lemma_fundamental_div_mod_converse(2 * a + d, 2 * d, q + 1, 2 * r - d);
    } else {
        assert(2 * a + d == q * (2 * d) + (2 * r + d)) by (nonlinear_arith)
            requires
                a == d * q + r,
        ;
        lemma_fundamental_div_mod_converse(2 * a + d, 2 * d, q, 2 * r + d);
    }
}

/// Rounding half-up never decreases when the numerator grows.
pub proof fn lemma_round_div_monotone(a1: int, a2: int, d: int)
    requires
        a1 <= a2,
        0 < d,
    ensures
        round_div(a1, d) <= round_div(a2, d),
{
    lemma_round_div_as_div(a1, d);
    lemma_round_div_as_div(a2, d);
    lemma_div_is_ordered(2 * a1 + d, 2 * a2 + d, 2 * d);
}

/// A whole multiple of the scale rounds to itself.
pub proof fn lemma_round_div_scale(n: int, d: int)
    requires
        0 < d,
        0 <= n,
    ensures
        round_div(d * n, d) == n,
{
    lemma_round_div_as_div(d * n, d);
    assert(2 * (d * n) + d == n * (2 * d) + d) by (nonlinear_arith);
    lemma_fundamental_div_mod_converse(2 * (d * n) + d, 2 * d, n, d);
}

/// Rounding a non-negative quantity stays non-negative.
pub proof fn lemma_round_div_nonneg(a: int, d: int)
    requires
        0 <= a,
        0 < d,
    ensures
        0 <= round_div(a, d),
{
    lemma_div_pos_is_pos(a, d);
}

/// Floor division is superadditive: rounding two parts down separately
/// allocates no more than rounding their sum down.
pub proof fn lemma_div_superadd(a: int, b: int, d: int)
    requires
        0 <= a,
        0 <= b,
        0 < d,
    ensures
        a / d + b / d <= (a + b) / d,
{
    let q1 = a / d;
    let r1 = a % d;
    let q2 = b / d;
    let r2 = b % d;
    lemma_fundamental_div_mod(a, d);
    lemma_fundamental_div_mod(b, d);
    if r1 + r2 < d {
        assert(a + b == (q1 + q2) * d + (r1 + r2)) by (nonlinear_arith)
            requires
                a == d * q1 + r1,
                b == d * q2 + r2,
        ;
        lemma_fundamental_div_mod_converse(a + b, d, q1 + q2, r1 + r2);
    } else {
        assert(a + b == (q1 + q2 + 1) * d + (r1 + r2 - d)) by (nonlinear_arith)
            requires
                a == d * q1 + r1,
                b == d * q2 + r2,
        ;
        lemma_fundamental_div_mod_converse(a + b, d, q1 + q2 + 1, r1 + r2 - d);
    }
}

/// The product of two bounded non-negative factors is bounded by the
/// product of the bounds.
proof fn lemma_mul_le(a: int, b: int, c: int, d: int)
    requires
        0 <= a <= c,
        0 <= b <= d,
    ensures
        a * b <= c * d,
{
    lemma_mul_inequality(a, c, b);
    lemma_mul_inequality(b, d, c);
    assert(c * b == b * c) by (nonlinear_arith);
}

/// Floor policy: group `g` takes its own product `nums[g] * n / den`
/// rounded down.
pub open spec fn floor_size(num: i64, den: u64, n: int) -> int {
    (num * n) / (den as int)
}

/// Tail policy boundary after `g` groups: the running total of the
/// per-group half-up rounded products, clamped to `n` at every step.
pub open spec fn tail_point(nums: Seq<i64>, den: u64, n: int, g: int) -> int
    decreases g,
{
    if g <= 0 {
        0
    } else {
        min(tail_point(nums, den, n, g - 1) + round_div(nums[g - 1] * n, den as int), n)
    }
}

/// Each policy boundary after `g` groups: the cumulative weight's product,
/// rounded half-up once.
pub open spec fn each_point(nums: Seq<i64>, den: u64, n: int, g: int) -> int {
    round_div(num_prefix(nums, g) * n, den as int)
}

/// The size of group `g` under the given rounding policy, for input
/// length `n`.
pub open spec fn resolved_size(
    rounding: SizeRounding,
    nums: Seq<i64>,
    den: u64,
    n: int,
    g: int,
) -> int {
    match rounding {
        SizeRounding::Floor => floor_size(nums[g], den, n),
        SizeRounding::Tail => tail_point(nums, den, n, g + 1) - tail_point(nums, den, n, g),
        SizeRounding::Each => each_point(nums, den, n, g + 1) - each_point(nums, den, n, g),
    }
}

/// When the vector fits, every single weight stays within the scale.
pub proof fn lemma_num_le_den(nums: Seq<i64>, den: u64, g: int)
    requires
        ratios_wellformed(nums, den),
        ratios_fit(nums, den),
        0 <= g < nums.len(),
    ensures
        0 <= nums[g] <= den,
{
    lemma_num_prefix_monotone(nums, 0, g);
    lemma_num_prefix_monotone(nums, g + 1, nums.len() as int);
}

/// A floored product of a within-scale weight is between zero and `n`.
pub proof fn lemma_floor_size_bounds(num: i64, den: u64, n: int)
    requires
        0 <= num <= den,
        0 < den,
        0 <= n,
    ensures
        0 <= floor_size(num, den, n) <= n,
{
    vstd::arithmetic::mul::lemma_mul_nonnegative(num as int, n);
    lemma_mul_inequality(num as int, den as int, n);
    lemma_div_pos_is_pos(num * n, den as int);
    lemma_div_is_ordered(num * n, (den as int) * n, den as int);
    lemma_div_multiples_vanish(n, den as int);
}

/// A half-up rounded product of a within-scale quantity is between zero
/// and `n`.
pub proof fn lemma_round_size_bounds(a: int, den: u64, n: int)
    requires
        0 <= a <= (den as int) * n,
        0 < den,
        0 <= n,
    ensures
        0 <= round_div(a, den as int) <= n,
{
    lemma_round_div_nonneg(a, den as int);
    lemma_round_div_monotone(a, (den as int) * n, den as int);
    lemma_round_div_scale(n, den as int);
}

/// Each boundaries are monotone in the group count and never pass `n`.
pub proof fn lemma_each_point_bounds(nums: Seq<i64>, den: u64, n: int, g1: int, g2: int)
    requires
        ratios_wellformed(nums, den),
        ratios_fit(nums, den),
        0 <= g1 <= g2 <= nums.len(),
        0 <= n,
    ensures
        0 <= each_point(nums, den, n, g1) <= each_point(nums, den, n, g2) <= n,
{
    lemma_num_prefix_monotone(nums, 0, g1);
    lemma_num_prefix_monotone(nums, g1, g2);
    lemma_num_prefix_monotone(nums, g2, nums.len() as int);
    vstd::arithmetic::mul::lemma_mul_nonnegative(num_prefix(nums, g1), n);
    lemma_mul_inequality(num_prefix(nums, g1), num_prefix(nums, g2), n);
    lemma_mul_inequality(num_prefix(nums, g2), den as int, n);
    lemma_round_div_nonneg(num_prefix(nums, g1) * n, den as int);
    lemma_round_div_monotone(num_prefix(nums, g1) * n, num_prefix(nums, g2) * n, den as int);
    lemma_round_div_monotone(num_prefix(nums, g2) * n, (den as int) * n, den as int);
    lemma_round_div_scale(n, den as int);
}

/// Check a ratio vector, naming exactly why it is rejected.
pub fn check_ratios(ratios: &Ratios) -> (r: Result<(), GroupingError>)
    ensures
        r is Ok <==> ratios_wellformed(ratios.nums@, ratios.den) && ratios_fit(
            ratios.nums@,
            ratios.den,
        ),
        r == Err::<(), GroupingError>(GroupingError::InvalidRatio) <==> !ratios_wellformed(
            ratios.nums@,
            ratios.den,
        ),
        r == Err::<(), GroupingError>(GroupingError::RatioOverflow) <==> (ratios_wellformed(
            ratios.nums@,
            ratios.den,
        ) && !ratios_fit(ratios.nums@, ratios.den)),
{
    if ratios.den == 0 {
        return Err(GroupingError::InvalidRatio);
    }
    let m = ratios.nums.len();
    let mut i: usize = 0;
    while i < m
        invariant
            m == ratios.nums@.len(),
            i <= m,
            forall|h: int| 0 <= h < i ==> ratios.nums@[h] >= 0,
        decreases m - i,
    {
        if ratios.nums[i] < 0 {
            return Err(GroupingError::InvalidRatio);
        }
        i = i + 1;
    }
    let mut acc: u128 = 0;
    let mut i: usize = 0;
    while i < m
        invariant
            m == ratios.nums@.len(),
            i <= m,
            forall|h: int| 0 <= h < m ==> ratios.nums@[h] >= 0,
            acc == num_prefix(ratios.nums@, i as int),
            acc <= (i as int) * 0x7fff_ffff_ffff_ffff,
        decreases m - i,
    {
        acc = acc + (ratios.nums[i] as u128);
        i = i + 1;
    }
    if acc > ratios.den as u128 {
        return Err(GroupingError::RatioOverflow);
    }
    Ok(())
}

/// Resolve under the floor policy: every product rounded down on its own.
fn floor_sizes(nums: &Vec<i64>, den: u64, len: usize) -> (sizes: Vec<usize>)
    requires
        ratios_wellformed(nums@, den),
        ratios_fit(nums@, den),
    ensures
        sizes@.len() == nums@.len(),
        forall|g: int|
            0 <= g < nums@.len() ==> sizes@[g] == floor_size(nums@[g], den, len as int),
        sum_all(sizes@) <= len,
{
    let m = nums.len();
    let den_w = den as u128;
    let n_w = len as u128;
    let mut sizes: Vec<usize> = Vec::new();
    let mut g: usize = 0;
    while g < m
        invariant
            ratios_wellformed(nums@, den),
            ratios_fit(nums@, den),
            m == nums@.len(),
            den_w == den,
            n_w == len,
            g <= m,
            sizes@.len() == g,
            forall|h: int|
                0 <= h < g ==> sizes@[h] == floor_size(nums@[h], den, len as int),
            sum_prefix(sizes@, g as int) <= (num_prefix(nums@, g as int) * (len as int)) / (
            den as int),
        decreases m - g,
    {
        proof {
            lemma_num_le_den(nums@, den, g as int);
            lemma_floor_size_bounds(nums[g as int], den, len as int);
        }
        let num = nums[g];
        proof {
            lemma_mul_le(num as int, len as int, 0xffff_ffff_ffff_ffff, 0xffff_ffff_ffff_ffff);
        }
        let p = (num as u128) * n_w;
        let s = p / den_w;
        let ghost prev_sizes = sizes@;
        sizes.push(s as usize);
        proof {
            let ghost np = num_prefix(nums@, g as int);
            let ghost ni = nums@[g as int] as int;
            let ghost n = len as int;
            let ghost d = den as int;
            lemma_sum_prefix_push(prev_sizes, s as usize);
            lemma_num_prefix_monotone(nums@, 0, g as int);
            vstd::arithmetic::mul::lemma_mul_nonnegative(np, n);
            vstd::arithmetic::mul::lemma_mul_nonnegative(ni, n);
            lemma_div_superadd(np * n, ni * n, d);
            assert((np + ni) * n == np * n + ni * n) by (nonlinear_arith);
            assert(sum_prefix(sizes@, g + 1) <= (num_prefix(nums@, g + 1) * n) / d);
        }
        g = g + 1;
    }
    proof {
        let ghost n = len as int;
        let ghost d = den as int;
        lemma_mul_inequality(num_total(nums@), d, n);
        lemma_num_prefix_monotone(nums@, 0, m as int);
        vstd::arithmetic::mul::lemma_mul_nonnegative(num_total(nums@), n);
        lemma_div_is_ordered(num_total(nums@) * n, d * n, d);
        lemma_div_multiples_vanish(n, d);
    }
    sizes
}

/// Half-up rounding of `num * len / den`, exactly as the spec names it.
fn round_product(num: i64, den: u64, len: usize) -> (r: u128)
    requires
        0 <= num,
        0 < den,
    ensures
        r == round_div(num * (len as int), den as int),
{
    proof {
        lemma_mul_le(num as int, len as int, 0xffff_ffff_ffff_ffff, 0xffff_ffff_ffff_ffff);
    }
    let p = (num as u128) * (len as u128);
    let q = p / (den as u128);
    let rem = p % (den as u128);
    proof {
        vstd::arithmetic::div_mod::lemma_div_nonincreasing(p as int, den as int);
    }
    if 2 * rem >= den as u128 {
        q + 1
    } else {
        q
    }
}

/// Resolve under the tail policy: per-group products rounded half-up,
/// the running total clamped to the input length.
fn tail_sizes(nums: &Vec<i64>, den: u64, len: usize) -> (sizes: Vec<usize>)
    requires
        ratios_wellformed(nums@, den),
        ratios_fit(nums@, den),
    ensures
        sizes@.len() == nums@.len(),
        forall|g: int|
            0 <= g < nums@.len() ==> sizes@[g] == tail_point(nums@, den, len as int, g + 1)
                - tail_point(nums@, den, len as int, g),
        sum_all(sizes@) <= len,
{
    let m = nums.len();
    let n_w = len as u128;
    let mut sizes: Vec<usize> = Vec::new();
    let mut pt: usize = 0;
    let mut g: usize = 0;
    while g < m
        invariant
            ratios_wellformed(nums@, den),
            ratios_fit(nums@, den),
            m == nums@.len(),
            n_w == len,
            g <= m,
            sizes@.len() == g,
            pt == tail_point(nums@, den, len as int, g as int),
            pt <= len,
            forall|h: int|
                0 <= h < g ==> sizes@[h] == tail_point(nums@, den, len as int, h + 1)
                    - tail_point(nums@, den, len as int, h),
            sum_prefix(sizes@, g as int) == pt,
        decreases m - g,
    {
        proof {
            lemma_num_le_den(nums@, den, g as int);
            vstd::arithmetic::mul::lemma_mul_nonnegative(nums@[g as int] as int, len as int);
            lemma_mul_inequality(nums@[g as int] as int, den as int, len as int);
            lemma_round_size_bounds(nums@[g as int] * (len as int), den, len as int);
        }
        let r = round_product(nums[g], den, len);
        let cand = pt as u128 + r;
        let new_pt = if cand > n_w {
            len
        } else {
            cand as usize
        };
        let ghost prev_sizes = sizes@;
        sizes.push(new_pt - pt);
        proof {
            lemma_sum_prefix_push(prev_sizes, (new_pt - pt) as usize);
        }
        pt = new_pt;
        g = g + 1;
    }
    sizes
}

/// Resolve under the each policy: cumulative weights' products rounded
/// half-up once, sizes as their differences.
fn each_sizes(nums: &Vec<i64>, den: u64, len: usize) -> (sizes: Vec<usize>)
    requires
        ratios_wellformed(nums@, den),
        ratios_fit(nums@, den),
    ensures
        sizes@.len() == nums@.len(),
        forall|g: int|
            0 <= g < nums@.len() ==> sizes@[g] == each_point(nums@, den, len as int, g + 1)
                - each_point(nums@, den, len as int, g),
        sum_all(sizes@) <= len,
{
    let m = nums.len();
    let mut sizes: Vec<usize> = Vec::new();
    let mut s_acc: u128 = 0;
    let mut pt: usize = 0;
    let mut g: usize = 0;
    proof {
        lemma_div_of0_and_round(den);
    }
    while g < m
        invariant
            ratios_wellformed(nums@, den),
            ratios_fit(nums@, den),
            m == nums@.len(),
            g <= m,
            sizes@.len() == g,
            s_acc == num_prefix(nums@, g as int),
            pt == each_point(nums@, den, len as int, g as int),
            forall|h: int|
                0 <= h < g ==> sizes@[h] == each_point(nums@, den, len as int, h + 1)
                    - each_point(nums@, den, len as int, h),
            sum_prefix(sizes@, g as int) == pt,
        decreases m - g,
    {
        proof {
            lemma_num_le_den(nums@, den, g as int);
            lemma_num_prefix_monotone(nums@, 0, g as int);
            lemma_num_prefix_monotone(nums@, g + 1, m as int);
            lemma_each_point_bounds(nums@, den, len as int, g as int, g + 1);
        }
        let num = nums[g];
        let s_next = s_acc + (num as u128);
        proof {
            lemma_mul_le(s_next as int, len as int, 0xffff_ffff_ffff_ffff, 0xffff_ffff_ffff_ffff);
        }
        let p = s_next * (len as u128);
        let q = p / (den as u128);
        let rem = p % (den as u128);
        proof {
            vstd::arithmetic::div_mod::lemma_div_nonincreasing(p as int, den as int);
        }
        let r = if 2 * rem >= den as u128 {
            q + 1
        } else {
            q
        };
        let new_pt = r as usize;
        let ghost prev_sizes = sizes@;
        sizes.push(new_pt - pt);
        proof {
            lemma_sum_prefix_push(prev_sizes, (new_pt - pt) as usize);
        }
        s_acc = s_next;
        pt = new_pt;
        g = g + 1;
    }
    proof {
        lemma_each_point_bounds(nums@, den, len as int, 0, m as int);
    }
    sizes
}

/// `0 / d` rounds to zero.
proof fn lemma_div_of0_and_round(den: u64)
    requires
        0 < den,
    ensures
        round_div(0, den as int) == 0,
{
    vstd::arithmetic::div_mod::lemma_div_of0(den as int);
    vstd::arithmetic::div_mod::lemma_small_mod(0nat, den as nat);
}

/// Convert ratios to sizes under a rounding policy.
///
/// One size per ratio, positions preserved; the sizes always total at
/// most `len`.
pub fn resolve_sizes(rounding: SizeRounding, ratios: &Ratios, len: usize) -> (sizes: Vec<usize>)
    requires
        ratios_wellformed(ratios.nums@, ratios.den),
        ratios_fit(ratios.nums@, ratios.den),
    ensures
        sizes@.len() == ratios.nums@.len(),
        forall|g: int|
            0 <= g < sizes@.len() ==> sizes@[g] == resolved_size(
                rounding,
                ratios.nums@,
                ratios.den,
                len as int,
                g,
            ),
        sum_all(sizes@) <= len,
{
    match rounding {
        SizeRounding::Floor => floor_sizes(&ratios.nums, ratios.den, len),
        SizeRounding::Tail => tail_sizes(&ratios.nums, ratios.den, len),
        SizeRounding::Each => each_sizes(&ratios.nums, ratios.den, len),
    }
}

} // verus!
