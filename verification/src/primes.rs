//! Primality by trial division, and prime counting built on it.

use vstd::arithmetic::div_mod::{lemma_fundamental_div_mod, lemma_mod_multiples_basic};
use vstd::prelude::*;

verus! {

/// `d` is a positive divisor of `n`.
pub open spec fn divides(d: nat, n: nat) -> bool {
    d > 0 && n % d == 0
}

/// A prime is an integer greater than 1 whose only positive divisors are 1
/// and itself.
pub open spec fn is_prime_number(n: nat) -> bool {
    n >= 2 && forall|d: nat| 1 < d < n ==> !#[trigger] divides(d, n)
}

/// `root` is the integer square root of `n`: the one natural number whose
/// square does not exceed `n` while the next square does.
pub open spec fn is_floor_sqrt(root: nat, n: nat) -> bool {
    root * root <= n < (root + 1) * (root + 1)
}

/// The number of primes in `2..=max`: one for each prime candidate.
pub open spec fn prime_count(max: nat) -> nat
    decreases max,
{
    if max < 2 {
        0
    } else {
        prime_count((max - 1) as nat) + if is_prime_number(max) {
            1nat
        } else {
            0nat
        }
    }
}

/// The primes that do not exceed `max`.
pub open spec fn primes_up_to(max: nat) -> Set<nat> {
    Set::new(|p: nat| p <= max && is_prime_number(p))
}

/// Whether `n` is prime.
///
/// Numbers below 2 are not prime, 2 is, and no larger even number is; an odd
/// number is tried against every odd candidate from 3 up to its integer
/// square root.
pub fn is_prime(n: u32) -> (prime: bool)
    ensures
        prime == is_prime_number(n as nat),
        n < 2 ==> !prime,
        n == 2 ==> prime,
        n > 2 && n % 2 == 0 ==> !prime,
{
    if n < 2 {
        return false;
    }
    if n == 2 {
        return true;
    }
    if n % 2 == 0 {
        assert(divides(2, n as nat));
        return false;
    }
    let bound: u32 = floor_sqrt(n);
    let mut i: u32 = 3;
    while i <= bound
        invariant
            3 <= i <= bound + 2,
            bound <= 65535,
            n % 2 == 1,
            i % 2 == 1,
            is_floor_sqrt(bound as nat, n as nat),
            forall|d: nat| 1 < d < i ==> !#[trigger] divides(d, n as nat),
        decreases bound + 2 - i,
    {
        if n % i == 0 {
            proof {
                lemma_square_order(i as nat, bound as nat);
                assert(i < i * i) by (nonlinear_arith)
                    requires
                        i >= 3,
                ;
                assert(divides(i as nat, n as nat));
            }
            return false;
        }
        proof {
            lemma_odd_has_no_even_divisor(n as nat, (i + 1) as nat);
        }
        i += 2;
    }
    proof {
        lemma_trial_division_complete(n as nat, bound as nat);
    }
    true
}

/// Counts the primes in `2..=max` by testing each candidate in turn; a bound
/// below 2 leaves nothing to test and gives 0.
pub fn count_primes(max: u32) -> (count: u32)
    ensures
        count == prime_count(max as nat),
        count == primes_up_to(max as nat).len(),
        max < 2 ==> count == 0,
{
    proof {
        lemma_prime_count_is_cardinality(max as nat);
    }
    if max < 2 {
        return 0;
    }
    let mut count: u32 = 0;
    let mut candidate: u32 = 1;
    while candidate < max
        invariant
            1 <= candidate <= max,
            count == prime_count(candidate as nat),
            count < candidate,
        decreases max - candidate,
    {
        candidate += 1;
        if is_prime(candidate) {
            count += 1;
        }
    }
    count
}

/// The integer square root of `n`, found by bisection on `0..65536`.
pub fn floor_sqrt(n: u32) -> (root: u32)
    ensures
        is_floor_sqrt(root as nat, n as nat),
        root <= 65535,
{
    let mut low: u32 = 0;
    let mut high: u32 = 65536;
    while high - low > 1
        invariant
            low < high <= 65536,
            low * low <= n < high * high,
        decreases high - low,
    {
        let mid: u32 = low + (high - low) / 2;
        proof {
            lemma_square_order(mid as nat, 65535);
        }
        if mid * mid <= n {
            low = mid;
        } else {
            high = mid;
        }
    }
    low
}

/// A number has one integer square root only.
pub proof fn lemma_floor_sqrt_unique(first: nat, second: nat, n: nat)
    requires
        is_floor_sqrt(first, n),
        is_floor_sqrt(second, n),
    ensures
        first == second,
{
    lemma_square_order(first + 1, second);
    lemma_square_order(second + 1, first);
}

/// There are fewer primes up to `max` than numbers up to `max`, so the count
/// for a 32-bit bound always fits in 32 bits.
pub proof fn lemma_prime_count_bound(max: nat)
    ensures
        prime_count(max) <= max,
        max >= 1 ==> prime_count(max) < max,
    decreases max,
{
    if max >= 2 {
        lemma_prime_count_bound((max - 1) as nat);
    }
}

/// `prime_count(max)` is the size of the set of primes that do not exceed
/// `max`.
pub proof fn lemma_prime_count_is_cardinality(max: nat)
    ensures
        primes_up_to(max).finite(),
        primes_up_to(max).len() == prime_count(max),
    decreases max,
{
    if max < 2 {
        assert(primes_up_to(max) =~= Set::<nat>::empty());
    } else {
        let below = primes_up_to((max - 1) as nat);
        lemma_prime_count_is_cardinality((max - 1) as nat);
        if is_prime_number(max) {
            assert(primes_up_to(max) =~= below.insert(max));
            assert(!below.contains(max));
        } else {
            assert(primes_up_to(max) =~= below);
        }
    }
}

/// Squaring keeps the order of natural numbers.
proof fn lemma_square_order(a: nat, b: nat)
    ensures
        a <= b ==> a * a <= b * b,
        a < b ==> a * a < b * b,
{
    assert(a <= b ==> a * a <= b * b) by (nonlinear_arith);
    assert(a < b ==> a * a < b * b) by (nonlinear_arith);
}

/// An odd number has no even divisor.
proof fn lemma_odd_has_no_even_divisor(n: nat, d: nat)
    requires
        n % 2 == 1,
        d % 2 == 0,
    ensures
        !divides(d, n),
{
    if divides(d, n) {
        let q = n / d;
        let h = d / 2;
        assert(n == d * q) by {
            lemma_fundamental_div_mod(n as int, d as int);
        }
        assert(n == 2 * (h * q)) by (nonlinear_arith)
            requires
                n == d * q,
                d == 2 * h,
        ;
    }
}

/// Trial division may stop at the square root: a number above 1 with no
/// divisor in `2..=root`, where `root` is its integer square root, is prime.
proof fn lemma_trial_division_complete(n: nat, root: nat)
    requires
        n >= 2,
        n < (root + 1) * (root + 1),
        forall|d: nat| 1 < d <= root ==> !#[trigger] divides(d, n),
    ensures
        is_prime_number(n),
{
    assert forall|d: nat| 1 < d < n implies !#[trigger] divides(d, n) by {
        if divides(d, n) {
            // The cofactor of a divisor above the root lies at or below it.
            let q = n / d;
            assert(n == d * q) by {
                lemma_fundamental_div_mod(n as int, d as int);
            }
            assert(1 < q && n == q * d && (d > root ==> q <= root)) by (nonlinear_arith)
                requires
                    n == d * q,
                    1 < d < n,
                    n < (root + 1) * (root + 1),
            ;
            assert(n % q == 0) by {
                lemma_mod_multiples_basic(d as int, q as int);
            }
            assert(divides(q, n));
        }
    }
}

} // verus!
