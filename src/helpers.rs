use vstd::prelude::*;

verus! {

/// Two to the power `k`.
pub open spec fn exp2(k: nat) -> nat
    decreases k,
{
    if k == 0 {
        1
    } else {
        2 * exp2((k - 1) as nat)
    }
}

/// The smallest `k` with `n <= 2^k`.
pub open spec fn ceil_log2(n: nat) -> nat
    decreases n,
{
    if n <= 1 {
        0
    } else {
        ceil_log2(((n + 1) / 2) as nat) + 1
    }
}

/// The size class of `n`: the smallest power of two that is at least `n`.
pub open spec fn next_pow2(n: nat) -> nat {
    exp2(ceil_log2(n))
}

/// `next_pow2(n)` is the least power of two not below `n`.
pub proof fn lemma_next_pow2(n: nat)
    requires
        n >= 1,
    ensures
        n <= next_pow2(n) < 2 * n,
        forall|j: nat| n <= #[trigger] exp2(j) ==> next_pow2(n) <= exp2(j),
    decreases n,
{
    if n > 1 {
        let m = ((n + 1) / 2) as nat;
        lemma_next_pow2(m);
        assert(next_pow2(n) == 2 * next_pow2(m));
        if m == 1 {
            assert(n == 2);
        } else {
            assert(next_pow2(m) == 2 * next_pow2(((m + 1) / 2) as nat));
        }
        assert forall|j: nat| n <= #[trigger] exp2(j) implies next_pow2(n) <= exp2(j) by {
            assert(j > 0);
            let i = (j - 1) as nat;
            assert(exp2(j) == 2 * exp2(i));
            assert(m <= exp2(i));
        }
    } else {
        assert forall|j: nat| n <= #[trigger] exp2(j) implies next_pow2(n) <= exp2(j) by {
            lemma_exp2_pos(j);
        }
    }
}

/// A size within `2^k` has a size class within `2^k`.
pub proof fn lemma_next_pow2_le_exp2(n: nat, k: nat)
    requires
        1 <= n <= exp2(k),
    ensures
        next_pow2(n) <= exp2(k),
{
    lemma_next_pow2(n);
}

/// Powers of two are positive.
pub proof fn lemma_exp2_pos(k: nat)
    ensures
        exp2(k) >= 1,
    decreases k,
{
    if k > 0 {
        lemma_exp2_pos((k - 1) as nat);
    }
}

/// `next_pow2` is monotonic.
pub proof fn lemma_next_pow2_monotonic(a: nat, b: nat)
    requires
        1 <= a <= b,
    ensures
        next_pow2(a) <= next_pow2(b),
{
    lemma_next_pow2(a);
    lemma_next_pow2(b);
}

/// The size class of `n` for `1 <= n <= 65536`, as a 32-bit value.
pub(crate) fn size_class(n: u32) -> (r: u32)
    requires
        1 <= n <= 65536,
    ensures
        r == next_pow2(n as nat),
        n <= r <= 65536,
    decreases n,
{
    proof {
        lemma_next_pow2(n as nat);
        assert(exp2(16) == 65536) by {
            reveal_with_fuel(exp2, 17);
        }
        lemma_next_pow2_monotonic(n as nat, 65536);
        lemma_next_pow2(65536);
    }
    if n <= 1 {
        1
    } else {
        let h = size_class((n + 1) / 2);
        2 * h
    }
}

/// Rounds `from` up to the next power of two.
///
/// A size of zero has no size class, and sizes above 32768 would need a
/// class of 65536, which does not fit the 16-bit result.
pub fn next_power_of_2(from: u16) -> (r: u16)
    requires
        1 <= from <= 32768,
    ensures
        r == next_pow2(from as nat),
        from <= r < 2 * from,
{
    proof {
        lemma_next_pow2(from as nat);
    }
    size_class(from as u32) as u16
}

} // verus!
