//! Fibonacci numbers, computed iteratively in 64 bits with wraparound.

use vstd::prelude::*;

verus! {

/// The largest index whose Fibonacci number fits in 64 bits.
pub const LARGEST_EXACT_INDEX: u32 = 93;

/// The `n`-th Fibonacci number: 0, 1, 1, 2, 3, 5, 8, ...
pub open spec fn fibonacci_number(n: nat) -> nat
    decreases n,
{
    if n < 2 {
        n
    } else {
        fibonacci_number((n - 1) as nat) + fibonacci_number((n - 2) as nat)
    }
}

/// What 64-bit wrapping arithmetic keeps of a natural number.
pub open spec fn wrapped(value: nat) -> u64 {
    (value % 0x1_0000_0000_0000_0000) as u64
}

/// The `n`-th Fibonacci number, reduced modulo 2^64.
///
/// Two running values are advanced `n - 1` times with wrapping addition, so
/// that a large `n` wraps silently; up to `n == 93` the result is exact.
pub fn fibonacci(n: u32) -> (value: u64)
    ensures
        value == wrapped(fibonacci_number(n as nat)),
        n <= LARGEST_EXACT_INDEX ==> value == fibonacci_number(n as nat),
{
    proof {
        if n <= LARGEST_EXACT_INDEX {
            lemma_exact_below_wraparound(n as nat);
        }
    }
    if n <= 1 {
        return n as u64;
    }
    let mut previous: u64 = 0;
    let mut current: u64 = 1;
    let mut index: u32 = 1;
    while index < n
        invariant
            1 <= index <= n,
            previous == wrapped(fibonacci_number((index - 1) as nat)),
            current == wrapped(fibonacci_number(index as nat)),
        decreases n - index,
    {
        let next: u64 = previous.wrapping_add(current);
        previous = current;
        current = next;
        index += 1;
    }
    current
}

/// The Fibonacci numbers never decrease.
pub proof fn lemma_fibonacci_number_monotonic(i: nat, j: nat)
    requires
        i <= j,
    ensures
        fibonacci_number(i) <= fibonacci_number(j),
    decreases j,
{
    if i < j {
        lemma_fibonacci_number_monotonic(i, (j - 1) as nat);
    }
}

/// The Fibonacci numbers up to index 93 fit in 64 bits, and the next one does
/// not.
pub proof fn lemma_exact_range()
    ensures
        fibonacci_number(93) == 12200160415121876738,
        fibonacci_number(94) == 19740274219868223167,
        fibonacci_number(93) <= u64::MAX < fibonacci_number(94),
{
    // Three legs of 31 steps each, so that every leg unfolds within its fuel.
    assert(advance(0, 1, 31) == 1346269 && advance(0, 1, 32) == 2178309) by {
        reveal_with_fuel(advance, 33);
    }
    lemma_advance_walks(0, 31);
    lemma_advance_walks(0, 32);
    assert(advance(1346269, 2178309, 31) == 4052739537881 && advance(1346269, 2178309, 32)
        == 6557470319842) by {
        reveal_with_fuel(advance, 33);
    }
    lemma_advance_walks(31, 31);
    lemma_advance_walks(31, 32);
    assert(advance(4052739537881, 6557470319842, 31) == 12200160415121876738 && advance(
        4052739537881,
        6557470319842,
        32,
    ) == 19740274219868223167) by {
        reveal_with_fuel(advance, 33);
    }
    lemma_advance_walks(62, 31);
    lemma_advance_walks(62, 32);
}

/// Up to index 93 nothing wraps: the 64-bit value is the Fibonacci number
/// itself.
pub proof fn lemma_exact_below_wraparound(n: nat)
    requires
        n <= LARGEST_EXACT_INDEX,
    ensures
        fibonacci_number(n) <= u64::MAX,
        wrapped(fibonacci_number(n)) == fibonacci_number(n),
{
    lemma_exact_range();
    lemma_fibonacci_number_monotonic(n, 93);
}

/// Where nothing wraps, the 64-bit values never decrease as the index grows.
///
/// Past index 93 this no longer holds: the value at 94 has wrapped and is
/// smaller than the value at 93.
pub proof fn lemma_monotonic_below_wraparound(i: nat, j: nat)
    requires
        i <= j <= LARGEST_EXACT_INDEX,
    ensures
        wrapped(fibonacci_number(i)) <= wrapped(fibonacci_number(j)),
{
    lemma_exact_below_wraparound(i);
    lemma_exact_below_wraparound(j);
    lemma_fibonacci_number_monotonic(i, j);
}

/// The first wraparound is at index 94, where the 64-bit value falls below
/// its predecessor.
pub proof fn lemma_first_wraparound()
    ensures
        wrapped(fibonacci_number(94)) == 1293530146158671551,
        wrapped(fibonacci_number(94)) < wrapped(fibonacci_number(93)),
{
    lemma_exact_range();
}

/// The first of a pair of consecutive terms after the recurrence has been
/// applied `steps` times to the pair `(first, second)`.
spec fn advance(first: nat, second: nat, steps: nat) -> nat
    decreases steps,
{
    if steps == 0 {
        first
    } else {
        advance(second, first + second, (steps - 1) as nat)
    }
}

/// Advancing a pair of consecutive Fibonacci numbers walks along the
/// sequence.
proof fn lemma_advance_walks(start: nat, steps: nat)
    ensures
        advance(fibonacci_number(start), fibonacci_number(start + 1), steps) == fibonacci_number(
            start + steps,
        ),
    decreases steps,
{
    if steps > 0 {
        lemma_advance_walks(start + 1, (steps - 1) as nat);
    }
}

} // verus!
