use vstd::prelude::*;
use vstd::arithmetic::div_mod::{lemma_add_mod_noop, lemma_mul_mod_noop_general, lemma_sub_mod_noop};

verus! {

/// Share values live in the ring of integers modulo `2^64`.
pub open spec fn modulus() -> int {
    0x1_0000_0000_0000_0000
}

/// The canonical ring element of `x`.
pub open spec fn ring(x: int) -> int {
    x % modulus()
}

/// Plain integer sum of a sequence of shares.
pub open spec fn total(s: Seq<u64>) -> int
    decreases s.len(),
{
    if s.len() == 0 {
        0
    } else {
        total(s.drop_last()) + s.last() as int
    }
}

pub proof fn lemma_ring_add(x: int, y: int)
    ensures
        ring(ring(x) + ring(y)) == ring(x + y),
        ring(ring(x) + y) == ring(x + y),
        ring(x + ring(y)) == ring(x + y),
{
    lemma_add_mod_noop(x, y, modulus());
    lemma_add_mod_noop(x % modulus(), y, modulus());
    lemma_add_mod_noop(x, y % modulus(), modulus());
    assert((x % modulus()) % modulus() == x % modulus()) by {
        vstd::arithmetic::div_mod::lemma_mod_twice(x, modulus());
    }
    assert((y % modulus()) % modulus() == y % modulus()) by {
        vstd::arithmetic::div_mod::lemma_mod_twice(y, modulus());
    }
}

pub proof fn lemma_ring_sub(x: int, y: int)
    ensures
        ring(ring(x) - ring(y)) == ring(x - y),
{
    lemma_sub_mod_noop(x, y, modulus());
}

pub proof fn lemma_ring_mul(x: int, y: int)
    ensures
        ring(ring(x) * ring(y)) == ring(x * y),
        ring(ring(x) * y) == ring(x * y),
        ring(x * ring(y)) == ring(x * y),
{
    lemma_mul_mod_noop_general(x, y, modulus());
}

pub proof fn lemma_ring_small(x: int)
    requires
        0 <= x < modulus(),
    ensures
        ring(x) == x,
{
    vstd::arithmetic::div_mod::lemma_small_mod(x as nat, modulus() as nat);
}

/// `wrapping_add` on shares is addition in the ring.
pub proof fn lemma_wrapping_add(x: u64, y: u64)
    ensures
        x.wrapping_add(y) as int == ring(x + y),
{
    if x + y > u64::MAX {
        lemma_ring_small(x + y - modulus());
        vstd::arithmetic::div_mod::lemma_mod_sub_multiples_vanish(x + y, modulus());
    } else {
        lemma_ring_small(x + y);
    }
}

/// `wrapping_sub` on shares is subtraction in the ring.
pub proof fn lemma_wrapping_sub(x: u64, y: u64)
    ensures
        x.wrapping_sub(y) as int == ring(x - y),
{
    if x - y < 0 {
        lemma_ring_small(x - y + modulus());
        vstd::arithmetic::div_mod::lemma_mod_add_multiples_vanish(x - y, modulus());
    } else {
        lemma_ring_small(x - y);
    }
}

/// `wrapping_mul` on shares is multiplication in the ring.
pub proof fn lemma_wrapping_mul(x: u64, y: u64)
    ensures
        x.wrapping_mul(y) as int == ring(x * y),
{
}

/// The sum of a prefix extended by one element.
pub proof fn lemma_total_step(s: Seq<u64>, i: int)
    requires
        0 <= i < s.len(),
    ensures
        total(s.take(i + 1)) == total(s.take(i)) + s[i],
{
    assert(s.take(i + 1).drop_last() =~= s.take(i));
}

/// Summing shares that are pointwise `p * a + q * b + c + d` in the ring
/// gives `p * sum(a) + q * sum(b) + sum(c) + sum(d)` in the ring.
pub proof fn lemma_total_linear(
    s: Seq<u64>,
    a: Seq<u64>,
    b: Seq<u64>,
    c: Seq<u64>,
    d: Seq<u64>,
    p: int,
    q: int,
)
    requires
        a.len() == s.len(),
        b.len() == s.len(),
        c.len() == s.len(),
        d.len() == s.len(),
        forall|i: int|
            0 <= i < s.len() ==> s[i] as int == ring(p * a[i] + q * b[i] + c[i] + d[i]),
    ensures
        ring(total(s)) == ring(p * total(a) + q * total(b) + total(c) + total(d)),
    decreases s.len(),
{
    if s.len() > 0 {
        let n = s.len() - 1;
        lemma_total_linear(s.drop_last(), a.drop_last(), b.drop_last(), c.drop_last(), d.drop_last(), p, q);
        let rest = p * total(a.drop_last()) + q * total(b.drop_last()) + total(c.drop_last()) + total(d.drop_last());
        let last = p * a[n] + q * b[n] + c[n] + d[n];
        lemma_ring_add(total(s.drop_last()), last);
        lemma_ring_add(rest, last);
        assert(p * total(a) == p * total(a.drop_last()) + p * a[n]) by (nonlinear_arith)
            requires total(a) == total(a.drop_last()) + a[n];
        assert(q * total(b) == q * total(b.drop_last()) + q * b[n]) by (nonlinear_arith)
            requires total(b) == total(b.drop_last()) + b[n];
    }
}

/// Every share zero: the sum is zero.
pub proof fn lemma_total_zero(s: Seq<u64>)
    requires
        forall|i: int| 0 <= i < s.len() ==> s[i] == 0,
    ensures
        total(s) == 0,
    decreases s.len(),
{
    if s.len() > 0 {
        lemma_total_zero(s.drop_last());
    }
}

/// The first part `q + r`, every other part `q`: the parts sum to `n * q + r`.
pub proof fn lemma_total_spread(s: Seq<u64>, q: int, r: int)
    requires
        s.len() >= 1,
        s[0] == q + r,
        forall|i: int| 1 <= i < s.len() ==> s[i] == q,
    ensures
        total(s) == s.len() * q + r,
    decreases s.len(),
{
    if s.len() > 1 {
        let t = s.drop_last();
        assert(t[0] == q + r);
        assert(forall|i: int| 1 <= i < t.len() ==> t[i] == s[i]);
        lemma_total_spread(t, q, r);
        let n = s.len() as int;
        assert(n * q == (n - 1) * q + q) by (nonlinear_arith);
    } else {
        assert(total(s.drop_last()) == 0);
    }
}

proof fn lemma_expand(s0: int, r0: int, k1: int, k2: int, m: int)
    ensures
        (s0 + m * k1) * (r0 + m * k2) == s0 * r0 + m * (s0 * k2 + k1 * r0 + m * k1 * k2),
{
    assert((s0 + m * k1) * (r0 + m * k2) == s0 * r0 + s0 * (m * k2) + (m * k1) * r0 + (m * k1) * (m * k2))
        by (nonlinear_arith);
    assert(s0 * (m * k2) == m * (s0 * k2)) by (nonlinear_arith);
    assert((m * k1) * r0 == m * (k1 * r0)) by (nonlinear_arith);
    assert((m * k1) * (m * k2) == m * (m * k1 * k2)) by (nonlinear_arith);
    vstd::arithmetic::mul::lemma_mul_is_distributive_add(m, s0 * k2 + k1 * r0, m * k1 * k2);
    vstd::arithmetic::mul::lemma_mul_is_distributive_add(m, s0 * k2, k1 * r0);
}

/// The Beaver identity: with `sigma = x - a`, `rho = y - b` and `c = a * b`
/// in the ring, `rho * a + sigma * b + c + sigma * rho` is `x * y` in the ring.
pub proof fn lemma_beaver(x: int, y: int, a: int, b: int, c: int, sigma: int, rho: int)
    requires
        ring(sigma) == ring(x - a),
        ring(rho) == ring(y - b),
        ring(c) == ring(a * b),
    ensures
        ring(rho * a + sigma * b + c + ring(sigma * rho)) == ring(x * y),
{
    let m = modulus();
    let k1 = (sigma - (x - a)) / m;
    let k2 = (rho - (y - b)) / m;
    let k3 = (c - a * b) / m;
    vstd::arithmetic::div_mod::lemma_mod_equivalence(sigma, x - a, m);
    vstd::arithmetic::div_mod::lemma_mod_equivalence(rho, y - b, m);
    vstd::arithmetic::div_mod::lemma_mod_equivalence(c, a * b, m);
    vstd::arithmetic::div_mod::lemma_fundamental_div_mod(sigma - (x - a), m);
    vstd::arithmetic::div_mod::lemma_fundamental_div_mod(rho - (y - b), m);
    vstd::arithmetic::div_mod::lemma_fundamental_div_mod(c - a * b, m);
    assert(sigma == x - a + m * k1);
    assert(rho == y - b + m * k2);
    assert(c == a * b + m * k3);
    let s0 = x - a;
    let r0 = y - b;
    lemma_expand(s0, r0, k1, k2, m);
    assert(rho * a == r0 * a + m * (k2 * a)) by (nonlinear_arith)
        requires
            rho == r0 + m * k2,
    ;
    assert(sigma * b == s0 * b + m * (k1 * b)) by (nonlinear_arith)
        requires
            sigma == s0 + m * k1,
    ;
    assert(r0 * a + s0 * b + a * b + s0 * r0 == x * y) by (nonlinear_arith)
        requires
            s0 == x - a,
            r0 == y - b,
    ;
    let e = rho * a + sigma * b + c + sigma * rho;
    let k = k2 * a + k1 * b + k3 + (s0 * k2 + k1 * r0 + m * k1 * k2);
    assert(e == x * y + m * k) by (nonlinear_arith)
        requires
            sigma * rho == s0 * r0 + m * (s0 * k2 + k1 * r0 + m * k1 * k2),
            rho * a == r0 * a + m * (k2 * a),
            sigma * b == s0 * b + m * (k1 * b),
            r0 * a + s0 * b + a * b + s0 * r0 == x * y,
            c == a * b + m * k3,
            e == rho * a + sigma * b + c + sigma * rho,
            k == k2 * a + k1 * b + k3 + (s0 * k2 + k1 * r0 + m * k1 * k2),
    ;
    lemma_ring_add(rho * a + sigma * b + c, sigma * rho);
    vstd::arithmetic::div_mod::lemma_mod_multiples_vanish(k, x * y, m);
}

} // verus!
