use vstd::prelude::*;
use vstd::arithmetic::power2::{pow2, lemma_pow2_pos, lemma_pow2_strictly_increases, lemma_pow2_unfold, lemma2_to64};
use vstd::bits::{lemma_u32_shl_is_mul, lemma_u32_pow2_no_overflow};

verus! {

/// Level to size: a cube on level `lvl` is `2^lvl` voxels wide.
pub fn l2s(lvl: usize) -> (size: u32)
    requires
        lvl < 32,
    ensures
        size == pow2(lvl as nat),
{
    proof {
        lemma_u32_pow2_no_overflow(lvl as nat);
        lemma_u32_shl_is_mul(1, lvl as u32);
    }
    1u32 << (lvl as u32)
}

/// `2^l` is strictly increasing, and `2^l <= size < 2^(l + 1)` pins `l` down.
pub proof fn lemma_pow2_unique(a: nat, b: nat, size: nat)
    requires
        pow2(a) <= size < pow2(a + 1),
        pow2(b) <= size < pow2(b + 1),
    ensures
        a == b,
{
    if a < b {
        if a + 1 < b {
            lemma_pow2_strictly_increases(a + 1, b);
        }
    } else if b < a {
        if b + 1 < a {
            lemma_pow2_strictly_increases(b + 1, a);
        }
    }
}

/// Size to level: the largest `l` with `2^l <= size`.
pub fn s2l(size: u32) -> (lvl: usize)
    requires
        size > 0,
    ensures
        pow2(lvl as nat) <= size < pow2(lvl as nat + 1),
        lvl < 32,
{
    let mut l: usize = 0;
    let mut rest: u32 = size;
    proof {
        lemma2_to64();
    }
    while rest >= 2
        invariant
            1 <= rest <= size,
            l < 32,
            pow2(l as nat) * rest <= size < pow2(l as nat) * (rest + 1),
        decreases rest,
    {
        proof {
            lemma_pow2_unfold((l + 1) as nat);
            lemma_pow2_pos(l as nat);
            let p = pow2(l as nat);
            assert(p * (rest / 2) * 2 <= p * rest) by (nonlinear_arith)
                requires p > 0, rest >= 2;
            assert(p * rest < p * 2 * (rest / 2 + 1)) by (nonlinear_arith)
                requires p > 0, rest >= 2;
            assert(p * 2 * (rest / 2) == p * (rest / 2) * 2) by (nonlinear_arith);
            assert(p * (rest + 1) <= p * 2 * (rest / 2 + 1)) by (nonlinear_arith)
                requires p > 0, rest >= 2;
            if l + 1 >= 32 {
                lemma_pow2_strictly_increases(31, (l + 1) as nat);
                lemma_u32_pow2_no_overflow(31);
                lemma2_to64();
                assert(p * 2 * (rest / 2) >= p * 2) by (nonlinear_arith)
                    requires p > 0, rest >= 2;
            }
        }
        l = l + 1;
        rest = rest / 2;
    }
    proof {
        lemma_pow2_unfold((l + 1) as nat);
        assert(rest == 1);
        assert(pow2(l as nat) * rest == pow2(l as nat));
        assert(pow2(l as nat) * (rest + 1) == pow2(l as nat) * 2);
    }
    l
}

/// Going from a level to a size and back gives the level again.
pub proof fn law_s2l_inverts_l2s(lvl: nat, l: nat)
    requires
        pow2(l) <= pow2(lvl) < pow2(l + 1),
    ensures
        l == lvl,
{
    lemma_pow2_unfold(lvl + 1);
    lemma_pow2_pos(lvl);
    lemma_pow2_unique(l, lvl, pow2(lvl));
}

} // verus!

verus! {

/// `2^l` as an integer.
pub open spec fn pw(l: nat) -> int {
    pow2(l) as int
}

/// One level down a cube: the coordinate's cell on the level below is twice its
/// cell on this level plus the bit that says in which half it lies, and its
/// offset inside the smaller cell is its offset inside this one, reduced.
pub proof fn lemma_halve(p: int, lvl: nat)
    requires
        p >= 0,
        lvl >= 1,
    ensures
        pw(lvl) == 2 * pw((lvl - 1) as nat),
        pw((lvl - 1) as nat) > 0,
        p / pw((lvl - 1) as nat) == 2 * (p / pw(lvl)) + (if p % pw(lvl) >= pw((lvl - 1) as nat) { 1int } else { 0int }),
        (p % pw(lvl)) % pw((lvl - 1) as nat) == p % pw((lvl - 1) as nat),
        p % pw((lvl - 1) as nat) == (if p % pw(lvl) >= pw((lvl - 1) as nat) { p % pw(lvl) - pw((lvl - 1) as nat) } else { p % pw(lvl) }),
{
    let h = pw((lvl - 1) as nat);
    lemma_pow2_unfold(lvl);
    lemma_pow2_pos((lvl - 1) as nat);
    let big = pw(lvl);
    let q = p / big;
    let r = p % big;
    vstd::arithmetic::div_mod::lemma_fundamental_div_mod(p, big);
    assert(0 <= r < big);
    let b: int = if r >= h { 1 } else { 0 };
    let r2 = r - h * b;
    assert(0 <= r2 < h);
    assert(p == h * (2 * q + b) + r2) by (nonlinear_arith)
        requires p == big * q + r, big == 2 * h, r2 == r - h * b;
    vstd::arithmetic::div_mod::lemma_fundamental_div_mod_converse(p, h, 2 * q + b, r2);
    vstd::arithmetic::div_mod::lemma_fundamental_div_mod_converse(r, h, b, r2);
}

} // verus!
