//! Arithmetic in GF(256), with the reduction polynomial x^8 + x^4 + x^3 + x^2 + 1.
use vstd::prelude::*;

verus! {

/// Multiplies a field element by `x`, reducing by the field polynomial.
#[verifier::inline]
pub open spec fn xtime(v: u8) -> u8 {
    (((v as u16) << 1u16) as u8) ^ (if v & 0x80u8 != 0 { 0x1Du8 } else { 0u8 })
}

/// The product `a * (b mod x^s)`: shift-and-add over the low `s` bits of `b`.
pub open spec fn mul_steps(a: u8, b: u8, s: nat) -> u8
    decreases s,
{
    if s == 0 {
        0u8
    } else {
        let rest = mul_steps(xtime(a), b >> 1u8, (s - 1) as nat);
        if b & 1u8 == 1u8 {
            a ^ rest
        } else {
            rest
        }
    }
}

/// Field addition.
pub open spec fn gf_add(a: u8, b: u8) -> u8 {
    a ^ b
}

/// Field multiplication.
pub open spec fn gf_mul(a: u8, b: u8) -> u8 {
    mul_steps(a, b, 8)
}

/// `a` raised to the power `e`.
pub open spec fn gf_pow(a: u8, e: nat) -> u8
    decreases e,
{
    if e == 0 {
        1u8
    } else {
        gf_mul(a, gf_pow(a, (e - 1) as nat))
    }
}

/// The multiplicative inverse, `a^254`, as `a^2 * a^4 * ... * a^128`.
pub open spec fn gf_inv(a: u8) -> u8 {
    let a2 = gf_mul(a, a);
    let a4 = gf_mul(a2, a2);
    let a8 = gf_mul(a4, a4);
    let a16 = gf_mul(a8, a8);
    let a32 = gf_mul(a16, a16);
    let a64 = gf_mul(a32, a32);
    let a128 = gf_mul(a64, a64);
    gf_mul(gf_mul(gf_mul(gf_mul(gf_mul(gf_mul(a2, a4), a8), a16), a32), a64), a128)
}

/// `a` if bit `bit` of `b` is set, else 0.
#[verifier::inline]
pub open spec fn bit_term(a: u8, b: u8, bit: u8) -> u8 {
    if (b >> bit) & 1u8 == 1u8 {
        a
    } else {
        0u8
    }
}

/// The product written out over the eight bits of `b`.
#[verifier::inline]
pub open spec fn mul_unrolled(a: u8, b: u8) -> u8 {
    bit_term(a, b, 0u8) ^ bit_term(xtime(a), b, 1u8) ^ bit_term(xtime(xtime(a)), b, 2u8) ^ bit_term(
        xtime(xtime(xtime(a))),
        b,
        3u8,
    ) ^ bit_term(xtime(xtime(xtime(xtime(a)))), b, 4u8) ^ bit_term(xtime(xtime(xtime(xtime(xtime(a))))), b, 5u8)
        ^ bit_term(xtime(xtime(xtime(xtime(xtime(xtime(a)))))), b, 6u8) ^ bit_term(
        xtime(xtime(xtime(xtime(xtime(xtime(xtime(a))))))),
        b,
        7u8,
    )
}

/// Field division.
pub open spec fn gf_div(a: u8, b: u8) -> u8 {
    gf_mul(a, gf_inv(b))
}

fn xtime_exec(v: u8) -> (r: u8)
    ensures
        r == xtime(v),
{
    let hi: u8 = if v & 0x80u8 != 0 { 0x1Du8 } else { 0u8 };
    (((v as u16) << 1u16) as u8) ^ hi
}

fn mul_steps_exec(a: u8, b: u8, s: u8) -> (r: u8)
    ensures
        r == mul_steps(a, b, s as nat),
    decreases s,
{
    if s == 0 {
        0
    } else {
        let rest = mul_steps_exec(xtime_exec(a), b >> 1u8, s - 1);
        if b & 1u8 == 1u8 {
            a ^ rest
        } else {
            rest
        }
    }
}

/// Adds two field elements.
pub fn add(a: u8, b: u8) -> (r: u8)
    ensures
        r == gf_add(a, b),
{
    a ^ b
}

/// Multiplies two field elements.
pub fn mul(a: u8, b: u8) -> (r: u8)
    ensures
        r == gf_mul(a, b),
{
    mul_steps_exec(a, b, 8)
}

/// Raises `a` to the power `e`.
pub fn pow(a: u8, e: u16) -> (r: u8)
    ensures
        r == gf_pow(a, e as nat),
{
    let mut r: u8 = 1;
    let mut i: u16 = 0;
    while i < e
        invariant
            i <= e,
            r == gf_pow(a, i as nat),
        decreases e - i,
    {
        r = self::mul(a, r);
        i = i + 1;
    }
    r
}

/// The multiplicative inverse of a non-zero element.
pub fn inv(a: u8) -> (r: u8)
    requires
        a != 0,
    ensures
        r == gf_inv(a),
{
    let a2 = self::mul(a, a);
    let a4 = self::mul(a2, a2);
    let a8 = self::mul(a4, a4);
    let a16 = self::mul(a8, a8);
    let a32 = self::mul(a16, a16);
    let a64 = self::mul(a32, a32);
    let a128 = self::mul(a64, a64);
    let r = self::mul(self::mul(a2, a4), a8);
    let r = self::mul(self::mul(r, a16), a32);
    self::mul(self::mul(r, a64), a128)
}

/// Divides `a` by the non-zero element `b`.
pub fn div(a: u8, b: u8) -> (r: u8)
    requires
        b != 0,
    ensures
        r == gf_div(a, b),
{
    self::mul(a, inv(b))
}

proof fn lemma_mul_steps_distributes(a: u8, b: u8, c: u8, s: nat)
    ensures
        mul_steps(a, b ^ c, s) == mul_steps(a, b, s) ^ mul_steps(a, c, s),
    decreases s,
{
    if s > 0 {
        let t = (s - 1) as nat;
        let xa = xtime(a);
        lemma_mul_steps_distributes(xa, b >> 1u8, c >> 1u8, t);
        let bc = b ^ c;
        assert((bc >> 1u8) == ((b >> 1u8) ^ (c >> 1u8))) by (bit_vector)
            requires
                bc == b ^ c,
        ;
        let x = mul_steps(xa, b >> 1u8, t);
        let y = mul_steps(xa, c >> 1u8, t);
        let z = mul_steps(xa, bc >> 1u8, t);
        assert((if bc & 1u8 == 1u8 { a ^ z } else { z }) == ((if b & 1u8 == 1u8 { a ^ x } else { x })
            ^ (if c & 1u8 == 1u8 { a ^ y } else { y }))) by (bit_vector)
            requires
                bc == b ^ c,
                z == x ^ y,
        ;
        assert(mul_steps(a, b, s) == (if b & 1u8 == 1u8 { a ^ x } else { x }));
        assert(mul_steps(a, c, s) == (if c & 1u8 == 1u8 { a ^ y } else { y }));
        assert(mul_steps(a, bc, s) == (if bc & 1u8 == 1u8 { a ^ z } else { z }));
    } else {
        let x = mul_steps(a, b, s);
        let y = mul_steps(a, c, s);
        assert(x ^ y == 0u8) by (bit_vector)
            requires
                x == 0u8,
                y == 0u8,
        ;
    }
}

proof fn lemma_mul_steps_distributes_left(a: u8, b: u8, c: u8, s: nat)
    ensures
        mul_steps(a ^ b, c, s) == mul_steps(a, c, s) ^ mul_steps(b, c, s),
    decreases s,
{
    if s > 0 {
        let t = (s - 1) as nat;
        let ab = a ^ b;
        let (xa, xb, xab) = (xtime(a), xtime(b), xtime(ab));
        assert(xab == xa ^ xb) by (bit_vector)
            requires
                ab == a ^ b,
                xa == xtime(a),
                xb == xtime(b),
                xab == xtime(ab),
        ;
        lemma_mul_steps_distributes_left(xa, xb, c >> 1u8, t);
        let x = mul_steps(xa, c >> 1u8, t);
        let y = mul_steps(xb, c >> 1u8, t);
        let z = mul_steps(xab, c >> 1u8, t);
        assert((if c & 1u8 == 1u8 { ab ^ z } else { z }) == ((if c & 1u8 == 1u8 { a ^ x } else { x })
            ^ (if c & 1u8 == 1u8 { b ^ y } else { y }))) by (bit_vector)
            requires
                ab == a ^ b,
                z == x ^ y,
        ;
    } else {
        let x = mul_steps(a, c, s);
        let y = mul_steps(b, c, s);
        assert(x ^ y == 0u8) by (bit_vector)
            requires
                x == 0u8,
                y == 0u8,
        ;
    }
}

/// Multiplication distributes over addition in its first argument too.
pub proof fn lemma_mul_distributes_left(a: u8, b: u8, c: u8)
    ensures
        gf_mul(gf_add(a, b), c) == gf_add(gf_mul(a, c), gf_mul(b, c)),
{
    lemma_mul_steps_distributes_left(a, b, c, 8);
}

/// Multiplication distributes over addition.
pub proof fn lemma_mul_distributes_over_add(a: u8, b: u8, c: u8)
    ensures
        gf_mul(a, gf_add(b, c)) == gf_add(gf_mul(a, b), gf_mul(a, c)),
{
    lemma_mul_steps_distributes(a, b, c, 8);
}

proof fn lemma_mul_unrolled(a: u8, b: u8)
    ensures
        gf_mul(a, b) == mul_unrolled(a, b),
{
    let a1 = xtime(a);
    let a2 = xtime(a1);
    let a3 = xtime(a2);
    let a4 = xtime(a3);
    let a5 = xtime(a4);
    let a6 = xtime(a5);
    let a7 = xtime(a6);
    let b1 = b >> 1u8;
    let b2 = b1 >> 1u8;
    let b3 = b2 >> 1u8;
    let b4 = b3 >> 1u8;
    let b5 = b4 >> 1u8;
    let b6 = b5 >> 1u8;
    let b7 = b6 >> 1u8;
    let r8 = mul_steps(xtime(a7), b7 >> 1u8, 0);
    let r7 = mul_steps(a7, b7, 1);
    let r6 = mul_steps(a6, b6, 2);
    let r5 = mul_steps(a5, b5, 3);
    let r4 = mul_steps(a4, b4, 4);
    let r3 = mul_steps(a3, b3, 5);
    let r2 = mul_steps(a2, b2, 6);
    let r1 = mul_steps(a1, b1, 7);
    let r0 = mul_steps(a, b, 8);
    assert(r8 == 0u8);
    assert(r7 == (if b7 & 1u8 == 1u8 { a7 ^ r8 } else { r8 }));
    assert(r6 == (if b6 & 1u8 == 1u8 { a6 ^ r7 } else { r7 }));
    assert(r5 == (if b5 & 1u8 == 1u8 { a5 ^ r6 } else { r6 }));
    assert(r4 == (if b4 & 1u8 == 1u8 { a4 ^ r5 } else { r5 }));
    assert(r3 == (if b3 & 1u8 == 1u8 { a3 ^ r4 } else { r4 }));
    assert(r2 == (if b2 & 1u8 == 1u8 { a2 ^ r3 } else { r3 }));
    assert(r1 == (if b1 & 1u8 == 1u8 { a1 ^ r2 } else { r2 }));
    assert(r0 == (if b & 1u8 == 1u8 { a ^ r1 } else { r1 }));
    let m = bit_term(a, b, 0u8) ^ bit_term(a1, b, 1u8) ^ bit_term(a2, b, 2u8) ^ bit_term(a3, b, 3u8)
        ^ bit_term(a4, b, 4u8) ^ bit_term(a5, b, 5u8) ^ bit_term(a6, b, 6u8) ^ bit_term(a7, b, 7u8);
    assert(m == mul_unrolled(a, b));
    assert(r0 == m) by (bit_vector)
        requires
            m == bit_term(a, b, 0u8) ^ bit_term(a1, b, 1u8) ^ bit_term(a2, b, 2u8) ^ bit_term(a3, b, 3u8)
                ^ bit_term(a4, b, 4u8) ^ bit_term(a5, b, 5u8) ^ bit_term(a6, b, 6u8) ^ bit_term(a7, b, 7u8),
            b1 == b >> 1u8,
            b2 == b1 >> 1u8,
            b3 == b2 >> 1u8,
            b4 == b3 >> 1u8,
            b5 == b4 >> 1u8,
            b6 == b5 >> 1u8,
            b7 == b6 >> 1u8,
            r8 == 0u8,
            r7 == (if b7 & 1u8 == 1u8 { a7 ^ r8 } else { r8 }),
            r6 == (if b6 & 1u8 == 1u8 { a6 ^ r7 } else { r7 }),
            r5 == (if b5 & 1u8 == 1u8 { a5 ^ r6 } else { r6 }),
            r4 == (if b4 & 1u8 == 1u8 { a4 ^ r5 } else { r5 }),
            r3 == (if b3 & 1u8 == 1u8 { a3 ^ r4 } else { r4 }),
            r2 == (if b2 & 1u8 == 1u8 { a2 ^ r3 } else { r3 }),
            r1 == (if b1 & 1u8 == 1u8 { a1 ^ r2 } else { r2 }),
            r0 == (if b & 1u8 == 1u8 { a ^ r1 } else { r1 }),
    ;
}

/// Every non-zero element times its inverse is one.
#[verifier::rlimit(100)]
pub proof fn lemma_mul_inverse(a: u8)
    requires
        a != 0,
    ensures
        gf_mul(a, gf_inv(a)) == 1,
{
    let a2 = gf_mul(a, a);
    let a4 = gf_mul(a2, a2);
    let a8 = gf_mul(a4, a4);
    let a16 = gf_mul(a8, a8);
    let a32 = gf_mul(a16, a16);
    let a64 = gf_mul(a32, a32);
    let a128 = gf_mul(a64, a64);
    let i1 = gf_mul(a2, a4);
    let i2 = gf_mul(i1, a8);
    let i3 = gf_mul(i2, a16);
    let i4 = gf_mul(i3, a32);
    let i5 = gf_mul(i4, a64);
    let i6 = gf_mul(i5, a128);
    let one = gf_mul(a, i6);
    lemma_mul_unrolled(a, a);
    lemma_mul_unrolled(a2, a2);
    lemma_mul_unrolled(a4, a4);
    lemma_mul_unrolled(a8, a8);
    lemma_mul_unrolled(a16, a16);
    lemma_mul_unrolled(a32, a32);
    lemma_mul_unrolled(a64, a64);
    lemma_mul_unrolled(a2, a4);
    lemma_mul_unrolled(i1, a8);
    lemma_mul_unrolled(i2, a16);
    lemma_mul_unrolled(i3, a32);
    lemma_mul_unrolled(i4, a64);
    lemma_mul_unrolled(i5, a128);
    lemma_mul_unrolled(a, i6);
    assert(one == 1u8) by (bit_vector)
        requires
            a != 0u8,
            a2 == mul_unrolled(a, a),
            a4 == mul_unrolled(a2, a2),
            a8 == mul_unrolled(a4, a4),
            a16 == mul_unrolled(a8, a8),
            a32 == mul_unrolled(a16, a16),
            a64 == mul_unrolled(a32, a32),
            a128 == mul_unrolled(a64, a64),
            i1 == mul_unrolled(a2, a4),
            i2 == mul_unrolled(i1, a8),
            i3 == mul_unrolled(i2, a16),
            i4 == mul_unrolled(i3, a32),
            i5 == mul_unrolled(i4, a64),
            i6 == mul_unrolled(i5, a128),
            one == mul_unrolled(a, i6),
    ;
}

} // verus!
