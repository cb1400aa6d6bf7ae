//! The implicit binary tree that a linear hierarchy lays over an array.
//!
//! Leaves stand at the even indices. An odd index with `t` trailing one bits
//! is an inner node of reach `2^t`: its left child lies half a reach below
//! it, its right child half a reach above, or nearer where the array ends
//! before that.

use vstd::prelude::*;

verus! {

/// Two to the power `n`.
pub open spec fn exp2(n: nat) -> nat
    decreases n,
{
    if n == 0 {
        1
    } else {
        2 * exp2((n - 1) as nat)
    }
}

/// Whether `w` is a power of two.
pub open spec fn is_exp2(w: nat) -> bool
    decreases w,
{
    w == 1 || (w >= 2 && w % 2 == 0 && is_exp2(w / 2))
}

/// The reach of an index: two to the number of its trailing one bits.
pub open spec fn reach_of(i: nat) -> nat
    decreases i,
{
    if i % 2 == 1 {
        2 * reach_of(i / 2)
    } else {
        1
    }
}

/// What is left of `i + 1` when its factors of two are taken out.
pub open spec fn odd_part(i: nat) -> nat
    decreases i,
{
    if i % 2 == 1 {
        odd_part(i / 2)
    } else {
        i + 1
    }
}

/// The first of the steps `h`, `h / 2`, `h / 4`, ... that leads from `i` to
/// an index below `len`.
pub open spec fn fit(i: nat, len: nat, h: nat) -> nat
    decreases h,
{
    if h == 0 || i + h < len {
        h
    } else {
        fit(i, len, h / 2)
    }
}

/// The left child of the inner node `i`.
pub open spec fn left_child(i: nat) -> nat {
    (i - reach_of(i) / 2) as nat
}

/// The right child of the inner node `i` in an array of `len` entries.
pub open spec fn right_child(i: nat, len: nat) -> nat {
    i + fit(i, len, reach_of(i) / 2)
}

/// The index of the root in an array of `len` entries, where
/// `2^depth <= len < 2^(depth + 1)`.
pub open spec fn root_of(depth: nat) -> nat {
    (exp2(depth) - 1) as nat
}

/// `2^n` is a power of two.
pub proof fn lemma_exp2_is_exp2(n: nat)
    ensures
        is_exp2(exp2(n)),
        exp2(n) >= 1,
    decreases n,
{
    if n > 0 {
        lemma_exp2_is_exp2((n - 1) as nat);
    }
}

/// An index one below an odd multiple of a power of two has that power as
/// its reach.
pub proof fn lemma_reach_form(i: nat, w: nat, m: nat)
    requires
        is_exp2(w),
        m % 2 == 1,
        i + 1 == w * m,
    ensures
        reach_of(i) == w,
        odd_part(i) == m,
    decreases w,
{
    if w == 1 {
        assert(w * m == m) by (nonlinear_arith)
            requires
                w == 1,
        ;
    } else {
        let h = (w / 2) as nat;
        assert(w * m == 2 * (h * m)) by (nonlinear_arith)
            requires
                w == 2 * h,
        ;
        lemma_reach_form((i / 2) as nat, h, m);
    }
}

/// Every index is one below its reach times its odd part.
pub proof fn lemma_reach_node(i: nat)
    ensures
        is_exp2(reach_of(i)),
        odd_part(i) % 2 == 1,
        i + 1 == reach_of(i) * odd_part(i),
        1 <= reach_of(i) <= i + 1,
        i % 2 == 1 <==> reach_of(i) >= 2,
    decreases i,
{
    if i % 2 == 1 {
        let j = (i / 2) as nat;
        lemma_reach_node(j);
        let w = reach_of(j);
        let m = odd_part(j);
        assert((2 * w) * m == 2 * (w * m)) by (nonlinear_arith);
        assert((2 * w) * m >= 2 * w) by (nonlinear_arith)
            requires
                m >= 1,
        ;
    } else {
        assert(1 * (i + 1) == i + 1);
    }
}

/// The left child has half the reach of its parent.
pub proof fn lemma_left_child(i: nat)
    requires
        i % 2 == 1,
    ensures
        reach_of(i) >= 2,
        reach_of(i) / 2 <= i,
        reach_of(left_child(i)) == reach_of(i) / 2,
        left_child(i) < i,
        left_child(i) + 1 >= reach_of(i) / 2,
{
    lemma_reach_node(i);
    let w = reach_of(i);
    let m = odd_part(i);
    let h = (w / 2) as nat;
    assert(w * m == h * (2 * m - 1) + h) by (nonlinear_arith)
        requires
            w == 2 * h,
    ;
    assert(h * (2 * m - 1) >= h) by (nonlinear_arith)
        requires
            m >= 1,
            h >= 1,
    ;
    lemma_reach_form((i - h) as nat, h, (2 * m - 1) as nat);
}

/// A power of two below another divides it an even number of times.
pub proof fn lemma_exp2_quotient(w: nat, g: nat) -> (c: nat)
    requires
        is_exp2(w),
        is_exp2(g),
        g < w,
    ensures
        w == g * c,
        c % 2 == 0,
        c >= 2,
    decreases w,
{
    let h = (w / 2) as nat;
    if h == g {
        assert(g * 2 == w);
        2
    } else {
        lemma_exp2_order(h, g);
        let c = lemma_exp2_quotient(h, g);
        assert(g * (2 * c) == 2 * (g * c)) by (nonlinear_arith);
        2 * c
    }
}

/// Two powers of two are equal, or one is at most half the other.
pub proof fn lemma_exp2_order(a: nat, b: nat)
    requires
        is_exp2(a),
        is_exp2(b),
    ensures
        a == b || 2 * a <= b || 2 * b <= a,
    decreases a + b,
{
    if a == 1 || b == 1 {
    } else {
        lemma_exp2_order(a / 2, b / 2);
    }
}

/// A step of a smaller power of two above an inner node leads to a node with
/// that power as its reach.
pub proof fn lemma_step_up(i: nat, g: nat)
    requires
        is_exp2(g),
        g < reach_of(i),
    ensures
        reach_of(i + g) == g,
{
    lemma_reach_node(i);
    let w = reach_of(i);
    let m = odd_part(i);
    let c = lemma_exp2_quotient(w, g);
    assert(g * c * m + g == g * (c * m + 1)) by (nonlinear_arith);
    let c2 = c / 2;
    assert(c * m == 2 * (c2 * m)) by (nonlinear_arith)
        requires
            c == 2 * c2,
    ;
    lemma_reach_form(i + g, g, c * m + 1);
}

/// What `fit` finds for a node that has an entry after it.
pub proof fn lemma_fit(i: nat, len: nat, h: nat)
    requires
        is_exp2(h),
        i + 1 < len,
    ensures
        is_exp2(fit(i, len, h)),
        1 <= fit(i, len, h) <= h,
        i + fit(i, len, h) < len,
        fit(i, len, h) == h || i + 2 * fit(i, len, h) >= len,
    decreases h,
{
    if i + h < len {
    } else {
        lemma_fit(i, len, h / 2);
    }
}

/// The two children of an inner node that has an entry after it: where they
/// lie and what their reach is.
pub proof fn lemma_children(i: nat, len: nat)
    requires
        i % 2 == 1,
        i + 1 < len,
    ensures
        left_child(i) < i < right_child(i, len) < len,
        left_child(i) == i - reach_of(i) / 2,
        reach_of(left_child(i)) == reach_of(i) / 2,
        reach_of(right_child(i, len)) == right_child(i, len) - i,
        is_exp2((right_child(i, len) - i) as nat),
        2 * (right_child(i, len) - i) <= reach_of(i),
        2 * (right_child(i, len) - i) == reach_of(i) || 2 * right_child(i, len) - i >= len,
{
    lemma_left_child(i);
    lemma_reach_node(i);
    let h = (reach_of(i) / 2) as nat;
    lemma_fit(i, len, h);
    lemma_step_up(i, fit(i, len, h));
}

/// The index one below the odd multiple `2 k + 1` of twice a power of two
/// has twice that power as its reach.
pub proof fn lemma_node_form(half: nat, k: nat)
    requires
        is_exp2(half),
    ensures
        is_exp2(2 * half),
        2 * half * (2 * k + 1) >= 1,
        reach_of((2 * half * (2 * k + 1) - 1) as nat) == 2 * half,
{
    assert(2 * half * (2 * k + 1) >= 1) by (nonlinear_arith)
        requires
            half >= 1,
    ;
    lemma_reach_form((2 * half * (2 * k + 1) - 1) as nat, 2 * half, 2 * k + 1);
}

/// No index strictly between two neighbouring odd multiples of `w` is one
/// below an odd multiple of `w`.
pub proof fn lemma_between_nodes(j: nat, w: nat, k: nat)
    requires
        w >= 1,
        w * (2 * k + 1) < j + 1 < w * (2 * k + 3),
    ensures
        reach_of(j) != w,
{
    lemma_reach_node(j);
    if reach_of(j) == w {
        let m = odd_part(j);
        assert(2 * k + 1 < m < 2 * k + 3) by (nonlinear_arith)
            requires
                w >= 1,
                w * (2 * k + 1) < w * m < w * (2 * k + 3),
        ;
    }
}

/// A larger exponent gives a larger power, at least twice as large.
pub proof fn lemma_exp2_monotone(a: nat, b: nat)
    requires
        a <= b,
    ensures
        exp2(a) <= exp2(b),
        a < b ==> 2 * exp2(a) <= exp2(b),
    decreases b,
{
    if a < b {
        lemma_exp2_monotone(a, (b - 1) as nat);
    }
}

/// `2^n` is above `n`.
pub proof fn lemma_exp2_above(n: nat)
    ensures
        n < exp2(n),
    decreases n,
{
    if n > 0 {
        lemma_exp2_above((n - 1) as nat);
    }
}

/// Two to the power `e`.
pub fn pow2(e: usize) -> (r: usize)
    requires
        exp2(e as nat) <= 0x8000_0000,
    ensures
        r == exp2(e as nat),
{
    let mut r: usize = 1;
    let mut i: usize = 0;
    while i < e
        invariant
            i <= e,
            r == exp2(i as nat),
            exp2(e as nat) <= 0x8000_0000,
        decreases e - i,
    {
        proof {
            lemma_exp2_monotone((i + 1) as nat, e as nat);
        }
        r = r * 2;
        i += 1;
    }
    r
}

/// The number of trailing one bits of an index.
pub fn trailing_ones(idx: usize) -> (d: usize)
    requires
        idx < 0x8000_0000,
    ensures
        exp2(d as nat) == reach_of(idx as nat),
        idx % 2 == 1 ==> d >= 1,
{
    let mut d: usize = 0;
    let mut x: usize = idx;
    proof {
        lemma_reach_node(idx as nat);
        assert(exp2(0) * reach_of(idx as nat) == reach_of(idx as nat)) by (nonlinear_arith)
            requires
                exp2(0) == 1,
        ;
        assert(x * exp2(0) == x) by (nonlinear_arith)
            requires
                exp2(0) == 1,
        ;
    }
    while x % 2 == 1
        invariant
            reach_of(idx as nat) == exp2(d as nat) * reach_of(x as nat),
            x * exp2(d as nat) <= idx < 0x8000_0000,
            exp2(d as nat) >= 1,
        decreases x,
    {
        proof {
            let r = reach_of((x / 2) as nat);
            let e = exp2(d as nat);
            assert(e * (2 * r) == (2 * e) * r) by (nonlinear_arith);
            assert((x / 2) * (2 * e) <= x * e) by (nonlinear_arith)
                requires
                    2 * (x / 2) <= x,
                    e >= 0,
            ;
            assert(x * e >= e) by (nonlinear_arith)
                requires
                    x >= 1,
                    e >= 0,
            ;
            lemma_exp2_above(d as nat);
        }
        d += 1;
        x = x / 2;
    }
    assert(exp2(d as nat) * 1 == exp2(d as nat));
    d
}

} // verus!
