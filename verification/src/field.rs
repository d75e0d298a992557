//! Constant-time Montgomery arithmetic over Z_q, q = 12289.
//!
//! A field element is stored in Montgomery form `a * R mod q` with `R = 2^16`.
//! The residue it stands for is `val() = stored * R^-1 mod q`, where
//! `R^-1 mod q = 2304`.

use vstd::prelude::*;
use vstd::arithmetic::div_mod::*;
use vstd::arithmetic::mul::*;

use crate::crypto::wipe_u16;

verus! {

/// The modulus.
pub const Q: u32 = 12289;
/// `-q^-1 mod R`, R = 2^16.
pub const Q_INV_NEG: u32 = 12287;
/// `R^2 mod q`, used to lift a plain residue into Montgomery form.
pub const R2_MOD_Q: u32 = 10952;
/// `R mod q`.
pub const R_MOD_Q: u32 = 4091;

/// `R^-1 mod q`: `4091 * 2304 = 1 (mod q)`.
pub open spec fn r_inv() -> int {
    2304
}

/// A field element, stored in Montgomery form (value * R mod q).
#[derive(Clone, Copy, Debug, PartialEq, Eq)]
pub struct FieldElement(u16);

/// The residue that a Montgomery representative `m` stands for.
pub open spec fn mont_val(m: int) -> int {
    (m * r_inv()) % (Q as int)
}

impl FieldElement {
    /// Stored representatives are always reduced.
    #[verifier::type_invariant]
    spec fn inv(self) -> bool {
        (self.0 as int) < (Q as int)
    }

    /// The residue in `[0, q)` that this element stands for.
    pub closed spec fn val(self) -> int {
        mont_val(self.0 as int)
    }
}

/// Facts about the constants that the arithmetic rests on.
pub proof fn lemma_constants()
    ensures
        (4091int * r_inv()) % (Q as int) == 1,
        (65536int * r_inv()) % (Q as int) == 1,
        (10952int * r_inv()) % (Q as int) == 4091,
        (65536int * 65536int) % (Q as int) == 10952,
        (12287int * 12289int) % 65536 == 65535,
{
}

/// `(x * R) * R^-1 = x (mod q)`.
proof fn lemma_unmont(x: int)
    ensures
        ((x * 65536) * r_inv()) % (Q as int) == x % (Q as int),
{
    assert((x * 65536) * r_inv() == x * (65536 * r_inv())) by {
        lemma_mul_is_associative(x, 65536, r_inv());
    }
    lemma_mul_mod_noop_right(x, 65536 * r_inv(), Q as int);
    lemma_constants();
    assert(x * 1 == x);
}

/// Branchless "subtract q once if a >= q", for `a < 2q`.
pub fn ct_reduce_once(a: u32) -> (r: u16)
    requires
        a < 2 * Q,
    ensures
        r == (a as int) % (Q as int),
        (r as int) < (Q as int),
{
    let diff = a.wrapping_sub(Q);
    let mask = (diff as i32 >> 31) as u32;
    let s = diff.wrapping_add(mask & Q);
    let r = s as u16;
    proof {
        assert(diff == if a < 12289 { (a + 0x1_0000_0000 - 12289) as u32 } else { (a - 12289) as u32 });
        assert(r == if a < 12289 { a } else { (a - 12289) as u32 }) by (bit_vector)
            requires
                a < 24578,
                diff == if a < 12289 { (a + 0x1_0000_0000 - 12289) as u32 } else { (a - 12289) as u32 },
                mask == (diff as i32 >> 31) as u32,
                s == if diff + (mask & 12289) > 0xffff_ffff { (diff + (mask & 12289) - 0x1_0000_0000) as u32 } else { (diff + (mask & 12289)) as u32 },
                r == s as u16,
        ;
        if a >= 12289 {
            lemma_mod_sub_multiples_vanish(a as int, Q as int);
            lemma_small_mod((a - 12289) as nat, Q as nat);
        } else {
            lemma_small_mod(a as nat, Q as nat);
        }
    }
    r
}

/// Branchless Montgomery reduction: for `t < q * R`, returns `t * R^-1 mod q`.
pub fn montgomery_reduce(t: u32) -> (r: u16)
    requires
        (t as int) < (Q as int) * 65536,
    ensures
        (r as int) < (Q as int),
        (r as int) == ((t as int) * r_inv()) % (Q as int),
{
    let m = (t.wrapping_mul(Q_INV_NEG)) & 0xFFFF;
    assert(m < 65536) by (bit_vector)
        requires m == (t.wrapping_mul(12287u32)) & 0xFFFF;
    let mq = m * Q;
    let sum = t + mq;
    let u = sum >> 16;
    proof {
        assert(sum & 0xFFFF == 0 && u * 65536 == sum) by (bit_vector)
            requires
                t < 805371904,
                m == ((t as nat * 12287) % 0x1_0000_0000) as u32 & 0xFFFF,
                mq == m * 12289,
                sum == t + mq,
                u == sum >> 16,
        ;
        // u < 2q since t + m q < q R + R q.
        assert((u as int) < 2 * (Q as int)) by (nonlinear_arith)
            requires
                (u as int) * 65536 == (t as int) + (m as int) * 12289,
                (t as int) < 12289 * 65536,
                (m as int) < 65536;
        // u * R = t (mod q), hence u = t * R^-1 (mod q).
        assert(((t as int) + (m as int) * 12289) % 12289 == (t as int) % 12289) by {
            lemma_mod_multiples_vanish(m as int, t as int, 12289);
            assert((m as int) * 12289 + (t as int) == (t as int) + (m as int) * 12289);
        }
        lemma_unmont(u as int);
        lemma_mul_mod_noop_left((u as int) * 65536, r_inv(), Q as int);
        lemma_mul_mod_noop_left(t as int, r_inv(), Q as int);
    }
    ct_reduce_once(u)
}

/// Montgomery product of two representatives.
pub fn montgomery_mul_raw(a: u16, b: u16) -> (r: u16)
    requires
        (a as int) < 65536,
        (b as int) < (Q as int),
    ensures
        (r as int) < (Q as int),
        (r as int) == ((a as int) * (b as int) * r_inv()) % (Q as int),
{
    proof {
        assert((a as int) * (b as int) < 65536 * 12289) by (nonlinear_arith)
            requires (a as int) < 65536, (b as int) < 12289;
    }
    montgomery_reduce((a as u32) * (b as u32))
}

/// `a * k = a (mod q)` whenever `k = 1 (mod q)`.
proof fn lemma_mul_by_unit(a: int, k: int)
    requires
        k % (Q as int) == 1,
    ensures
        (a * k) % (Q as int) == a % (Q as int),
{
    lemma_mul_mod_noop_right(a, k, Q as int);
    assert(a * 1 == a);
}

/// The residue of a sum of representatives is the sum of their residues.
proof fn lemma_mont_add(x: int, y: int)
    ensures
        mont_val(x + y) == (mont_val(x) + mont_val(y)) % (Q as int),
{
    lemma_mul_is_distributive_add_other_way(r_inv(), x, y);
    lemma_add_mod_noop(x * r_inv(), y * r_inv(), Q as int);
}

/// The residue of a difference of representatives is the difference of their residues.
proof fn lemma_mont_sub(x: int, y: int)
    ensures
        mont_val(x - y) == (mont_val(x) - mont_val(y)) % (Q as int),
{
    lemma_mul_is_distributive_sub_other_way(r_inv(), x, y);
    lemma_sub_mod_noop(x * r_inv(), y * r_inv(), Q as int);
}

/// Reducing a representative mod q does not change its residue.
proof fn lemma_mont_mod(x: int)
    ensures
        mont_val(x % (Q as int)) == mont_val(x),
{
    lemma_mul_mod_noop_left(x, r_inv(), Q as int);
}

impl FieldElement {
    /// The zero element.
    pub fn zero() -> (r: FieldElement)
        ensures
            r.val() == 0,
    {
        FieldElement(0)
    }

    /// Lift a residue into Montgomery form. Inputs at or above q are reduced mod q.
    pub fn from_plain(a: u16) -> (r: FieldElement)
        ensures
            r.val() == (a as int) % (Q as int),
    {
        let m = montgomery_mul_raw(a, R2_MOD_Q as u16);
        proof {
            let x = a as int;
            lemma_mont_mod(x * 10952 * r_inv());
            assert(x * 10952 * r_inv() * r_inv() == x * (10952 * r_inv() * r_inv())) by (nonlinear_arith);
            assert((10952int * r_inv() * r_inv()) % (Q as int) == 1);
            lemma_mul_by_unit(x, 10952 * r_inv() * r_inv());
        }
        FieldElement(m)
    }

    /// The residue in `[0, q)` this element stands for.
    pub fn to_plain(self) -> (r: u16)
        ensures
            r == self.val(),
            (r as int) < (Q as int),
    {
        proof {
            use_type_invariant(&self);
        }
        montgomery_reduce(self.0 as u32)
    }

    /// Multiplication in Z_q.
    pub fn mul(self, other: Self) -> (r: FieldElement)
        ensures
            r.val() == (self.val() * other.val()) % (Q as int),
    {
        proof {
            use_type_invariant(&self);
            use_type_invariant(&other);
        }
        let m = montgomery_mul_raw(self.0, other.0);
        proof {
            let x = self.0 as int;
            let y = other.0 as int;
            lemma_mont_mod(x * y * r_inv());
            assert(x * y * r_inv() * r_inv() == (x * r_inv()) * (y * r_inv())) by (nonlinear_arith);
            lemma_mul_mod_noop(x * r_inv(), y * r_inv(), Q as int);
        }
        FieldElement(m)
    }

    /// Overwrites the stored representative with zero (a volatile write), so
    /// that secret material does not linger in memory.
    pub fn zeroize(&mut self)
        ensures
            final(self).val() == 0,
    {
        wipe_u16(&mut self.0);
    }

    /// Addition in Z_q.
    pub fn add(self, other: Self) -> (r: FieldElement)
        ensures
            r.val() == (self.val() + other.val()) % (Q as int),
    {
        proof {
            use_type_invariant(&self);
            use_type_invariant(&other);
        }
        let sum = self.0 as u32 + other.0 as u32;
        let m = ct_reduce_once(sum);
        proof {
            lemma_mont_mod(sum as int);
            lemma_mont_add(self.0 as int, other.0 as int);
        }
        FieldElement(m)
    }

    /// Subtraction in Z_q.
    pub fn sub(self, other: Self) -> (r: FieldElement)
        ensures
            r.val() == (self.val() - other.val()) % (Q as int),
    {
        proof {
            use_type_invariant(&self);
            use_type_invariant(&other);
        }
        let diff = self.0 as u32 + Q - other.0 as u32;
        let m = ct_reduce_once(diff);
        proof {
            let x = self.0 as int;
            let y = other.0 as int;
            lemma_mont_mod(diff as int);
            lemma_mont_add(x - y, Q as int);
            lemma_mul_by_unit(0, 1);
            assert(mont_val(Q as int) == 0) by {
                lemma_mod_multiples_basic(r_inv(), Q as int);
                lemma_mul_is_commutative(r_inv(), Q as int);
            }
            lemma_mont_sub(x, y);
            lemma_mod_twice(mont_val(x) - mont_val(y), Q as int);
        }
        FieldElement(m)
    }
}

/// Every residue lies in `[0, q)`.
pub proof fn lemma_val_range(x: FieldElement)
    ensures
        0 <= x.val() < Q as int,
{
}

} // verus!
