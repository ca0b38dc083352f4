//! Capacity normalization: the buffer's storage length is the smallest power
//! of two at least as large as the requested minimum size, clamped to the
//! inclusive range `[2, 2^23]`.

use vstd::arithmetic::power2::{lemma2_to64, lemma_pow2_strictly_increases, lemma_pow2_unfold, pow2};
use vstd::prelude::*;

verus! {

/// The smallest power of two that is at least `n` (`1` when `n <= 1`).
pub open spec fn next_pow2(n: int) -> int
    decreases n,
{
    if n <= 1 {
        1
    } else {
        2 * next_pow2((n + 1) / 2)
    }
}

/// The capacity the constructor produces for a requested minimum size:
/// the next power of two, clamped to the inclusive range `[2, 2^23]`.
pub open spec fn clamped_capacity(n: int) -> int {
    vstd::math::max(2, vstd::math::min(next_pow2(n), 0x80_0000))
}

/// Powers of two are monotone in the exponent.
pub proof fn lemma_pow2_monotone(e1: nat, e2: nat)
    requires
        e1 <= e2,
    ensures
        pow2(e1) <= pow2(e2),
{
    if e1 < e2 {
        lemma_pow2_strictly_increases(e1, e2);
    }
}

/// `next_pow2(n)` is a power of two in the half-open interval `[n, 2n)`.
pub proof fn lemma_next_pow2_bounds(n: int)
    requires
        1 <= n,
    ensures
        n <= next_pow2(n) < 2 * n,
        exists|e: nat| next_pow2(n) == pow2(e),
    decreases n,
{
    if n <= 1 {
        assert(pow2(0) == 1) by {
            lemma2_to64();
        }
        assert(next_pow2(n) == pow2(0));
    } else {
        let m = (n + 1) / 2;
        assert(1 <= m < n);
        lemma_next_pow2_bounds(m);
        let q = next_pow2(m);
        let e = choose|e: nat| q == pow2(e);
        assert(2 * q == pow2(e + 1)) by {
            lemma_pow2_unfold(e + 1);
        }
        assert(exists|e2: nat| next_pow2(n) == pow2(e2)) by {
            assert(next_pow2(n) == pow2(e + 1));
        }
        // Lower bound: 2q >= 2m >= n.
        assert(2 * m >= n);
        // Upper bound: q < n, hence 2q < 2n.
        if n % 2 == 0 {
            assert(2 * m == n);
        } else {
            assert(2 * m == n + 1);
            assert(q <= n);
            if q == n {
                // q is then an odd power of two at least 3, which cannot be.
                assert(q >= m >= 2);
                assert(e >= 1) by {
                    if e == 0 {
                        assert(pow2(0) == 1) by {
                            lemma2_to64();
                        }
                    }
                }
                assert(q == 2 * pow2((e - 1) as nat)) by {
                    lemma_pow2_unfold(e);
                }
                assert(q % 2 == 0);
                assert(n % 2 == 1);
                assert(false);
            }
        }
    }
}

/// Minimality: no smaller power of two reaches `n`.
pub proof fn lemma_next_pow2_minimal(n: int, p: int)
    requires
        1 <= n,
        n <= p,
        exists|e: nat| p == pow2(e),
    ensures
        p >= next_pow2(n),
{
    lemma_next_pow2_bounds(n);
    let q = next_pow2(n);
    let eq = choose|e: nat| q == pow2(e);
    let ep = choose|e: nat| p == pow2(e);
    if p < q {
        assert(ep < eq) by {
            if ep >= eq {
                lemma_pow2_monotone(eq, ep);
            }
        }
        assert(2 * p == pow2(ep + 1)) by {
            lemma_pow2_unfold(ep + 1);
        }
        lemma_pow2_monotone(ep + 1, eq);
        assert(2 * p <= q);
        assert(q < 2 * n);
        assert(p < n);
    }
}

/// Uniqueness: the one power of two in `[n, 2n)` is `next_pow2(n)`.
pub proof fn lemma_next_pow2_unique(n: int, p: int)
    requires
        1 <= n,
        n <= p < 2 * n,
        exists|e: nat| p == pow2(e),
    ensures
        p == next_pow2(n),
{
    lemma_next_pow2_bounds(n);
    let q = next_pow2(n);
    lemma_next_pow2_minimal(n, p);
    if p > q {
        let eq = choose|e: nat| q == pow2(e);
        let ep = choose|e: nat| p == pow2(e);
        assert(eq < ep) by {
            if eq >= ep {
                lemma_pow2_monotone(ep, eq);
            }
        }
        assert(2 * q == pow2(eq + 1)) by {
            lemma_pow2_unfold(eq + 1);
        }
        lemma_pow2_monotone(eq + 1, ep);
        assert(2 * q <= p);
        assert(p >= 2 * n);
    }
}

/// Doubles `1` until it reaches `n`, stopping at `2^30` so that the result
/// never overflows even for huge requests.
pub(crate) fn next_power_of_two(n: usize) -> (r: usize)
    ensures
        r as int == vstd::math::min(next_pow2(n as int), 0x4000_0000),
        exists|e: nat| e <= 30 && r as int == pow2(e),
{
    let mut power: usize = 1;
    proof {
        assert(pow2(0) == 1 && pow2(30) == 0x4000_0000) by {
            lemma2_to64();
        }
        assert(exists|e: nat| e <= 30 && power as int == pow2(e)) by {
            assert(0nat <= 30 && power as int == pow2(0));
        }
    }
    while power < n && power < 0x4000_0000
        invariant
            1 <= power <= 0x4000_0000,
            exists|e: nat| e <= 30 && power as int == pow2(e),
            power == 1 || power < 2 * (n as int),
        decreases 0x4000_0000 - power as int,
    {
        proof {
            let e = choose|e: nat| e <= 30 && power as int == pow2(e);
            assert(e < 30) by {
                if e == 30 {
                    assert(pow2(30) == 0x4000_0000) by {
                        lemma2_to64();
                    }
                }
            }
            assert(2 * power as int == pow2(e + 1)) by {
                lemma_pow2_unfold(e + 1);
            }
            assert(pow2(e + 1) <= pow2(30)) by {
                lemma_pow2_monotone(e + 1, 30);
            }
            assert(pow2(30) == 0x4000_0000) by {
                lemma2_to64();
            }
            assert(exists|e2: nat| e2 <= 30 && 2 * power as int == pow2(e2)) by {
                assert(e + 1 <= 30 && 2 * power as int == pow2(e + 1));
            }
        }
        power = power * 2;
    }
    proof {
        if power >= n {
            if power == 1 {
                assert(n as int <= 1);
                assert(next_pow2(n as int) == 1);
            } else {
                lemma_next_pow2_unique(n as int, power as int);
            }
        } else {
            assert(power == 0x4000_0000);
            assert(n as int > 0x4000_0000);
            lemma_next_pow2_bounds(n as int);
        }
    }
    power
}

} // verus!
