//! Arithmetic on the shape of a complete binary tree stored level by level:
//! node `k` has children `2k + 1` and `2k + 2`, and depth `d` starts at index `2^d - 1`.
use vstd::prelude::*;

verus! {

/// `2^n`.
pub open spec fn exp2(n: nat) -> nat
    decreases n,
{
    if n == 0 {
        1
    } else {
        2 * exp2((n - 1) as nat)
    }
}

/// The base-two logarithm of `n`, rounded down (and `0` for `n <= 1`).
pub open spec fn log2(n: nat) -> nat
    decreases n,
{
    if n <= 1 {
        0
    } else {
        1 + log2(n / 2)
    }
}

/// Whether `n` is a power of two.
pub open spec fn is_pow2(n: nat) -> bool
    decreases n,
{
    if n == 0 {
        false
    } else if n == 1 {
        true
    } else {
        n % 2 == 0 && is_pow2(n / 2)
    }
}

/// The largest power of two not above `n` (and `0` for `n == 0`).
pub open spec fn floor_pow2(n: nat) -> nat
    decreases n,
{
    if n == 0 {
        0
    } else if is_pow2(n) {
        n
    } else {
        floor_pow2((n - 1) as nat)
    }
}

/// Index of the first node at depth `d`.
pub open spec fn depth_first(d: nat) -> int {
    exp2(d) - 1
}

/// Whether node `k` lies `d` levels below node `root` (so `d == 0` means `k == root`).
pub open spec fn in_subtree_at(root: int, d: nat, k: int) -> bool {
    (root + 1) * exp2(d) - 1 <= k < (root + 2) * exp2(d) - 1
}

/// Whether node `k` lies in the subtree of node `root`, `root` included.
pub open spec fn in_subtree(root: int, k: int) -> bool {
    exists|d: nat| #[trigger] in_subtree_at(root, d, k)
}

/// The node reached from `idx` by following left children while they do not exceed `max_node`.
pub open spec fn leftmost_leaf(idx: int, max_node: int) -> int
    decreases max_node - idx,
{
    if 0 <= idx && 2 * idx + 1 <= max_node {
        leftmost_leaf(2 * idx + 1, max_node)
    } else {
        idx
    }
}

/// Powers of two are positive.
pub proof fn lemma_exp2_pos(n: nat)
    ensures
        exp2(n) >= 1,
    decreases n,
{
    if n > 0 {
        lemma_exp2_pos((n - 1) as nat);
    }
}

/// `2^n` exceeds `n`.
pub proof fn lemma_exp2_gt(n: nat)
    ensures
        exp2(n) > n,
    decreases n,
{
    if n > 0 {
        lemma_exp2_gt((n - 1) as nat);
    }
}

/// `2^(a + b) == 2^a * 2^b`.
pub proof fn lemma_exp2_add(a: nat, b: nat)
    ensures
        exp2(a + b) == exp2(a) * exp2(b),
    decreases a,
{
    if a > 0 {
        let a1 = (a - 1) as nat;
        lemma_exp2_add(a1, b);
        assert(((a + b) - 1) as nat == a1 + b);
        assert(exp2(a + b) == 2 * exp2(a1 + b));
        assert(exp2(a) == 2 * exp2(a1));
        let x = exp2(a1);
        let y = exp2(b);
        assert(2 * (x * y) == (2 * x) * y) by (nonlinear_arith);
        assert(exp2(a + b) == exp2(a) * exp2(b));
    } else {
        assert(a + b == b);
        assert(exp2(a) == 1);
        let y = exp2(b);
        assert(1 * y == y);
    }
}

/// Powers of two grow with the exponent, at least doubling per step.
pub proof fn lemma_exp2_mono(a: nat, b: nat)
    requires
        a <= b,
    ensures
        exp2(a) <= exp2(b),
        a < b ==> 2 * exp2(a) <= exp2(b),
    decreases b,
{
    lemma_exp2_pos(a);
    if a < b {
        lemma_exp2_mono(a, (b - 1) as nat);
    }
}

/// A smaller power of two has a smaller exponent.
pub proof fn lemma_exp2_strict(a: nat, b: nat)
    requires
        exp2(a) < exp2(b),
    ensures
        a < b,
{
    if a >= b {
        lemma_exp2_mono(b, a);
    }
}

/// The logarithm of a number between `2^j` and `2^(j + 1)` is `j`.
pub proof fn lemma_log2_exp2(j: nat, x: nat)
    requires
        exp2(j) <= x < exp2(j + 1),
    ensures
        log2(x) == j,
    decreases j,
{
    if j > 0 {
        lemma_exp2_pos((j - 1) as nat);
        assert(exp2((j - 1) as nat) <= x / 2 < exp2(j));
        lemma_log2_exp2((j - 1) as nat, x / 2);
    }
}

/// A positive number lies between `2^log2(x)` and the next power of two.
pub proof fn lemma_log2_bounds(x: nat)
    requires
        x >= 1,
    ensures
        exp2(log2(x)) <= x < exp2(log2(x) + 1),
    decreases x,
{
    if x > 1 {
        lemma_log2_bounds(x / 2);
        assert(log2(x) == 1 + log2(x / 2));
        assert(exp2(log2(x)) == 2 * exp2(log2(x / 2)));
        assert(exp2(log2(x) + 1) == 2 * exp2(log2(x / 2) + 1));
    } else {
        assert(log2(x) == 0);
        assert(exp2(1) == 2 * exp2(0));
    }
}

/// A power of two is `2` to its logarithm.
pub proof fn lemma_is_pow2_exp2(n: nat)
    requires
        is_pow2(n),
    ensures
        n == exp2(log2(n)),
    decreases n,
{
    if n > 1 {
        lemma_is_pow2_exp2(n / 2);
    }
}

/// `2^k` is a power of two whose logarithm is `k`.
pub proof fn lemma_exp2_is_pow2(k: nat)
    ensures
        is_pow2(exp2(k)),
        log2(exp2(k)) == k,
    decreases k,
{
    lemma_exp2_pos(k);
    if k > 0 {
        lemma_exp2_is_pow2((k - 1) as nat);
        lemma_exp2_pos((k - 1) as nat);
        assert(exp2(k) / 2 == exp2((k - 1) as nat));
    }
}

/// The largest power of two not above `n` is at most `n`, and a power of two when `n > 0`.
pub proof fn lemma_floor_pow2(n: nat)
    ensures
        floor_pow2(n) <= n,
        n > 0 ==> floor_pow2(n) > 0 && is_pow2(floor_pow2(n)),
    decreases n,
{
    if n > 0 && !is_pow2(n) {
        lemma_floor_pow2((n - 1) as nat);
    }
}

/// The nodes `d` levels below `root` form the run that starts at the `d`-th left descendant.
pub proof fn lemma_subtree_run(root: nat, d: nat)
    ensures
        (root + 2) * exp2(d) - 1 == (root + 1) * exp2(d) - 1 + exp2(d),
{
    let e = exp2(d);
    assert((root + 2) * e == (root + 1) * e + e) by (nonlinear_arith);
}

/// A run of nodes `d` levels below `root` that starts inside a tree of `t` levels
/// ends inside it.
pub proof fn lemma_subtree_fits(root: nat, d: nat, t: nat)
    requires
        (root + 1) * exp2(d) < exp2(t),
    ensures
        d < t,
        (root + 2) * exp2(d) <= exp2(t),
{
    lemma_exp2_pos(d);
    assert(exp2(d) <= (root + 1) * exp2(d)) by (nonlinear_arith)
        requires exp2(d) >= 1;
    lemma_exp2_strict(d, t);
    let q = exp2((t - d) as nat);
    lemma_exp2_add((t - d) as nat, d);
    assert((t - d) as nat + d == t);
    let e = exp2(d);
    assert(root + 1 < q) by (nonlinear_arith)
        requires (root + 1) * e < q * e, e >= 1;
    assert((root + 2) * e <= q * e) by (nonlinear_arith)
        requires root + 2 <= q, e >= 1;
}

/// Deeper runs of a subtree start further right.
pub proof fn lemma_subtree_deeper(root: nat, d: nat, e: nat)
    requires
        d <= e,
    ensures
        (root + 1) * exp2(d) <= (root + 1) * exp2(e),
{
    lemma_exp2_mono(d, e);
    let a = exp2(d);
    let b = exp2(e);
    assert((root + 1) * a <= (root + 1) * b) by (nonlinear_arith)
        requires a <= b;
}

/// `exp2` agrees with vstd's `pow2`.
pub proof fn lemma_exp2_pow2(k: nat)
    ensures
        exp2(k) == vstd::arithmetic::power2::pow2(k),
    decreases k,
{
    if k == 0 {
        vstd::arithmetic::power2::lemma2_to64();
    } else {
        lemma_exp2_pow2((k - 1) as nat);
        vstd::arithmetic::power2::lemma_pow2_unfold(k);
    }
}

/// The powers of two up to `2^12`.
pub proof fn lemma_exp2_values()
    ensures
        exp2(0) == 1,
        exp2(1) == 2,
        exp2(2) == 4,
        exp2(3) == 8,
        exp2(4) == 16,
        exp2(5) == 32,
        exp2(6) == 64,
        exp2(7) == 128,
        exp2(8) == 256,
        exp2(9) == 512,
        exp2(10) == 1024,
        exp2(11) == 2048,
        exp2(12) == 4096,
{
    reveal_with_fuel(exp2, 13);
}

/// `2^e`, computed by doubling.
pub fn pow2_usize(e: usize) -> (r: usize)
    requires
        exp2(e as nat) <= usize::MAX,
    ensures
        r == exp2(e as nat),
{
    let mut r: usize = 1;
    let mut i: usize = 0;
    while i < e
        invariant
            i <= e,
            r == exp2(i as nat),
            exp2(e as nat) <= usize::MAX,
        decreases e - i,
    {
        proof {
            lemma_exp2_mono((i + 1) as nat, e as nat);
        }
        r = r * 2;
        i = i + 1;
    }
    r
}

/// Whether `n` is a power of two.
pub fn is_power_of_two(n: usize) -> (r: bool)
    ensures
        r == is_pow2(n as nat),
{
    if n == 0 {
        return false;
    }
    let mut m = n;
    while m > 1 && m % 2 == 0
        invariant
            m >= 1,
            is_pow2(m as nat) == is_pow2(n as nat),
        decreases m,
    {
        m = m / 2;
    }
    m == 1
}

} // verus!
