//! Greatest common divisor and least common multiple.

use vstd::arithmetic::div_mod::{lemma_div_multiples_vanish, lemma_truncate_middle};
use vstd::prelude::*;

verus! {

/// The greatest common divisor of `a` and `b`, by Euclid's rule: that of
/// `b` and the remainder of `a` by `b`, and `a` itself where `b` is 0.
pub open spec fn spec_gcd(a: nat, b: nat) -> nat
    decreases b,
{
    if b == 0 {
        a
    } else {
        spec_gcd(b, a % b)
    }
}

/// The least common multiple of two numbers: their product over their
/// greatest common divisor.
pub open spec fn lcm_of_two(a: nat, b: nat) -> nat {
    a * b / spec_gcd(a, b)
}

/// The least common multiple of the numbers of a list that is not empty.
pub open spec fn spec_lcm(nums: Seq<usize>) -> nat
    decreases nums.len(),
{
    if nums.len() <= 1 {
        nums[0] as nat
    } else {
        lcm_of_two(nums[0] as nat, spec_lcm(nums.drop_first()))
    }
}

/// `lcm` can work the list out: the list is not empty, no number is
/// combined with a 0 while itself 0, and no product on the way leaves the
/// range of `usize`.
pub open spec fn lcm_in_range(nums: Seq<usize>) -> bool
    decreases nums.len(),
{
    if nums.len() <= 1 {
        nums.len() == 1
    } else {
        &&& lcm_in_range(nums.drop_first())
        &&& nums[0] * spec_lcm(nums.drop_first()) <= usize::MAX
        &&& spec_gcd(nums[0] as nat, spec_lcm(nums.drop_first())) > 0
    }
}

/// `k` times `d`.
pub open spec fn times(k: nat, d: nat) -> nat {
    k * d
}

/// `d` divides `n`: `n` is a multiple of `d`.
pub open spec fn divides(d: nat, n: nat) -> bool {
    exists|k: nat| n == #[trigger] times(k, d)
}

/// The greatest common divisor divides both numbers.
pub proof fn lemma_gcd_divides_both(a: nat, b: nat)
    ensures
        divides(spec_gcd(a, b), a),
        divides(spec_gcd(a, b), b),
    decreases b,
{
    let g = spec_gcd(a, b);
    if b == 0 {
        assert(a == times(1, g));
        assert(b == times(0, g));
    } else {
        lemma_gcd_divides_both(b, a % b);
        let kb = choose|k: nat| b == #[trigger] times(k, g);
        let kr = choose|k: nat| a % b == #[trigger] times(k, g);
        let q = a / b;
        assert(a == q * b + a % b) by (nonlinear_arith)
            requires
                b > 0,
                q == a / b,
        ;
        assert(a == (q * kb + kr) * g) by (nonlinear_arith)
            requires
                a == q * b + a % b,
                b == kb * g,
                a % b == kr * g,
        ;
        assert(a == times(q * kb + kr, g));
    }
}

/// Whatever divides both numbers divides their greatest common divisor.
pub proof fn lemma_gcd_is_greatest(a: nat, b: nat, d: nat)
    requires
        divides(d, a),
        divides(d, b),
    ensures
        divides(d, spec_gcd(a, b)),
    decreases b,
{
    if b > 0 {
        let ka = choose|k: nat| a == #[trigger] times(k, d);
        let kb = choose|k: nat| b == #[trigger] times(k, d);
        let q = a / b;
        assert(a == q * b + a % b) by (nonlinear_arith)
            requires
                b > 0,
                q == a / b,
        ;
        assert(d > 0) by (nonlinear_arith)
            requires
                b == kb * d,
                b > 0,
        ;
        assert(ka >= q * kb && a % b == (ka - q * kb) * d) by (nonlinear_arith)
            requires
                a == q * b + a % b,
                a == ka * d,
                b == kb * d,
                d > 0,
                a % b >= 0,
        ;
        let kr: nat = (ka - q * kb) as nat;
        assert(a % b == times(kr, d));
        lemma_gcd_is_greatest(b, a % b, d);
    }
}

/// The least common multiple of two numbers is a multiple of both.
pub proof fn lemma_lcm_is_common_multiple(a: nat, b: nat)
    requires
        spec_gcd(a, b) > 0,
    ensures
        divides(a, lcm_of_two(a, b)),
        divides(b, lcm_of_two(a, b)),
{
    let g = spec_gcd(a, b);
    lemma_gcd_divides_both(a, b);
    let ka = choose|k: nat| a == #[trigger] times(k, g);
    let kb = choose|k: nat| b == #[trigger] times(k, g);
    assert(a * b / g == kb * a && a * b / g == ka * b) by (nonlinear_arith)
        requires
            a == ka * g,
            b == kb * g,
            g > 0,
    ;
    assert(lcm_of_two(a, b) == times(kb, a));
    assert(lcm_of_two(a, b) == times(ka, b));
}

/// Multiplying both numbers by `m` multiplies their greatest common
/// divisor by `m`.
pub proof fn lemma_gcd_scales(m: nat, a: nat, b: nat)
    ensures
        spec_gcd(m * a, m * b) == m * spec_gcd(a, b),
    decreases b,
{
    if b == 0 {
        assert(m * b == 0) by (nonlinear_arith)
            requires
                b == 0,
        ;
    } else if m == 0 {
        assert(m * a == 0 && m * b == 0 && m * spec_gcd(a, b) == 0) by (nonlinear_arith)
            requires
                m == 0,
        ;
    } else {
        lemma_truncate_middle(a as int, m as int, b as int);
        assert(m * b > 0);
        assert((m * a) % (m * b) == m * (a % b));
        lemma_gcd_scales(m, b, a % b);
    }
}

/// The least common multiple of two numbers divides every common
/// multiple of them: no smaller number is a multiple of both.
pub proof fn lemma_lcm_is_least(a: nat, b: nat, m: nat)
    requires
        spec_gcd(a, b) > 0,
        divides(a, m),
        divides(b, m),
    ensures
        divides(lcm_of_two(a, b), m),
{
    let g = spec_gcd(a, b);
    let l = lcm_of_two(a, b);
    let ja = choose|k: nat| m == #[trigger] times(k, a);
    let jb = choose|k: nat| m == #[trigger] times(k, b);
    // a * b divides both m * a and m * b, so it divides their greatest
    // common divisor, which is m * g
    assert(m * a == times(jb, a * b)) by (nonlinear_arith)
        requires
            m == jb * b,
    ;
    assert(m * b == times(ja, a * b)) by (nonlinear_arith)
        requires
            m == ja * a,
    ;
    lemma_gcd_is_greatest(m * a, m * b, a * b);
    lemma_gcd_scales(m, a, b);
    let j = choose|k: nat| m * g == #[trigger] times(k, a * b);
    // a * b is l * g
    lemma_gcd_divides_both(a, b);
    let kb = choose|k: nat| b == #[trigger] times(k, g);
    let p: nat = a * kb;
    assert(a * b == g * p) by (nonlinear_arith)
        requires
            b == kb * g,
            p == a * kb,
    ;
    lemma_div_multiples_vanish(p as int, g as int);
    assert(a * b == l * g) by (nonlinear_arith)
        requires
            a * b == g * p,
            l == p,
    ;
    assert(m == j * l) by (nonlinear_arith)
        requires
            m * g == j * (a * b),
            a * b == l * g,
            g > 0,
    ;
    assert(m == times(j, l));
}

/// What divides a divisor divides the number.
pub proof fn lemma_divides_chain(a: nat, b: nat, c: nat)
    requires
        divides(a, b),
        divides(b, c),
    ensures
        divides(a, c),
{
    let j = choose|k: nat| b == #[trigger] times(k, a);
    let k = choose|k: nat| c == #[trigger] times(k, b);
    assert(c == (k * j) * a) by (nonlinear_arith)
        requires
            b == j * a,
            c == k * b,
    ;
    assert(c == times(k * j, a));
}

/// The least common multiple of a list is a multiple of each number in
/// the list.
pub proof fn lemma_lcm_multiple_of_each(nums: Seq<usize>, i: int)
    requires
        lcm_in_range(nums),
        0 <= i < nums.len(),
    ensures
        divides(nums[i] as nat, spec_lcm(nums)),
    decreases nums.len(),
{
    if nums.len() <= 1 {
        assert(spec_lcm(nums) == times(1, nums[i] as nat));
    } else {
        let rest = nums.drop_first();
        lemma_lcm_is_common_multiple(nums[0] as nat, spec_lcm(rest));
        if i > 0 {
            lemma_lcm_multiple_of_each(rest, i - 1);
            lemma_divides_chain(nums[i] as nat, spec_lcm(rest), spec_lcm(nums));
        }
    }
}

/// The least common multiple of a list divides every number that is a
/// multiple of each number in the list.
pub proof fn lemma_lcm_divides_common_multiples(nums: Seq<usize>, m: nat)
    requires
        lcm_in_range(nums),
        forall|i: int| 0 <= i < nums.len() ==> divides(#[trigger] nums[i] as nat, m),
    ensures
        divides(spec_lcm(nums), m),
    decreases nums.len(),
{
    assert(divides(nums[0] as nat, m));
    if nums.len() > 1 {
        let rest = nums.drop_first();
        assert forall|i: int| 0 <= i < rest.len() implies divides(#[trigger] rest[i] as nat, m) by {
            assert(rest[i] == nums[i + 1]);
        }
        lemma_lcm_divides_common_multiples(rest, m);
        lemma_lcm_is_least(nums[0] as nat, spec_lcm(rest), m);
    }
}

/// The greatest common divisor of `a` and `b`.
pub fn gcd(a: usize, b: usize) -> (r: usize)
    ensures
        r == spec_gcd(a as nat, b as nat),
    decreases b,
{
    if b == 0 {
        a
    } else {
        gcd(b, a % b)
    }
}

/// The least common multiple of the numbers in `nums`, worked out from the
/// last number to the first.
pub fn lcm(nums: &[usize]) -> (r: usize)
    requires
        lcm_in_range(nums@),
    ensures
        r == spec_lcm(nums@),
{
    let n: usize = nums.len();
    proof {
        lemma_in_range_not_empty(nums@);
        lemma_in_range_tail(nums@, n - 1);
    }
    let mut i: usize = n - 1;
    let mut acc: usize = nums[i];
    assert(nums@.skip(i as int).len() == 1);
    while i > 0
        invariant
            i < n,
            n == nums.len(),
            lcm_in_range(nums@),
            acc == spec_lcm(nums@.skip(i as int)),
        decreases i,
    {
        i = i - 1;
        let a: usize = nums[i];
        proof {
            lemma_in_range_tail(nums@, i as int);
            assert(nums@.skip(i as int).drop_first() =~= nums@.skip(i + 1));
            assert(nums@.skip(i as int)[0] == a);
        }
        acc = a * acc / gcd(a, acc);
    }
    assert(nums@.skip(0) =~= nums@);
    acc
}

/// A list that `lcm` can work out is not empty.
proof fn lemma_in_range_not_empty(nums: Seq<usize>)
    requires
        lcm_in_range(nums),
    ensures
        nums.len() >= 1,
{
}

/// Where `lcm` can work out a list, it can work out each of its ends.
proof fn lemma_in_range_tail(nums: Seq<usize>, from: int)
    requires
        lcm_in_range(nums),
        0 <= from < nums.len(),
    ensures
        lcm_in_range(nums.skip(from)),
    decreases from,
{
    if from == 0 {
        assert(nums.skip(0) =~= nums);
    } else {
        assert(nums.len() > 1);
        lemma_in_range_tail(nums.drop_first(), from - 1);
        assert(nums.drop_first().skip(from - 1) =~= nums.skip(from));
    }
}

} // verus!
