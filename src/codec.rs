use vstd::prelude::*;
use vstd::arithmetic::power2::pow2;
use vstd::bits::lemma_u64_shr_is_div;
use vstd::arithmetic::power2::lemma2_to64;

verus! {

/// Width of the mantissa field of an encoded share.
pub const MANTISSA_BITS: u32 = 23;

/// One party's encoded fragment of a real number: `(-1)^s * v * 2^p`.
/// `z` is a flag reserved for marking zero; `s` is set for negative values.
#[derive(Debug, Copy, Clone, Hash)]
pub struct FL {
    pub v: u32,
    pub p: i32,
    pub z: u32,
    pub s: u32,
}

/// `floor(v / 2^m)`.
pub open spec fn trunc_spec(v: int, m: nat) -> int {
    v / (pow2(m) as int)
}

impl FL {
    pub fn new(v: u32, p: i32, z: u32, s: u32) -> (r: Self)
        ensures
            r.v == v,
            r.p == p,
            r.z == z,
            r.s == s,
    {
        FL { v, p, z, s }
    }

    pub fn get_fl(&self) -> (r: &Self)
        ensures
            *r == *self,
    {
        self
    }

    /// Builds the encoding from the parts of a native float's bit layout:
    /// its mantissa, its exponent and its sign (`-1` or `1`).
    pub fn from_integer_decode(mantissa: u64, exponent: i16, sign: i8) -> (r: Self)
        ensures
            r.v == mantissa as u32,
            r.p == exponent as i32,
            r.z == 0,
            r.s == (if sign >= 0 { 0u32 } else { 1u32 }),
    {
        FL::new(mantissa as u32, exponent as i32, 0, if sign >= 0 { 0 } else { 1 })
    }

    /// `floor(v / 2^m)`.
    pub fn trunc(v: u64, m: u32) -> (r: u32)
        requires
            m < 64,
            trunc_spec(v as int, m as nat) <= u32::MAX,
        ensures
            r as int == trunc_spec(v as int, m as nat),
    {
        proof {
            lemma_u64_shr_is_div(v, m as u64);
        }
        (v >> (m as u64)) as u32
    }

    /// `1` if `x < y`, else `0`.
    pub fn lt(x: u32, y: u32) -> (r: u32)
        ensures
            r == (if x < y { 1u32 } else { 0u32 }),
    {
        if x < y {
            1
        } else {
            0
        }
    }

    /// Multiplies two encodings on their fields: the mantissas' product cut
    /// back to the mantissa width, the zero flags or-ed, the signs xor-ed, and
    /// the exponents added (zero where either value is zero).
    pub fn fl_mul(fl1: Self, fl2: Self) -> (r: Self)
        requires
            fl1.v < 0x100_0000,
            fl2.v < 0x100_0000,
            fl1.z <= 1,
            fl2.z <= 1,
            -0x3fff_0000 <= fl1.p <= 0x3fff_0000,
            -0x3fff_0000 <= fl2.p <= 0x3fff_0000,
        ensures
            ({
                let v0 = trunc_spec(fl1.v * fl2.v, (MANTISSA_BITS - 1) as nat);
                let b: int = if v0 < 0x80_0000 { 1 } else { 0 };
                let z = fl1.z | fl2.z;
                &&& r.v as int == trunc_spec(2 * b * v0 + (1 - b) * v0, 1)
                &&& r.z == z
                &&& r.s == fl1.s ^ fl2.s
                &&& r.p as int == (fl1.p + fl2.p + (MANTISSA_BITS - b)) * (1 - z)
            }),
    {
        proof {
            lemma2_to64();
            assert(fl1.v as int * fl2.v as int <= 0xff_ffff * 0xff_ffff) by (nonlinear_arith)
                requires
                    fl1.v < 0x100_0000,
                    fl2.v < 0x100_0000,
            ;
        }
        let prod = fl1.v as u64 * fl2.v as u64;
        let v0 = Self::trunc(prod, MANTISSA_BITS - 1);
        let b = Self::lt(v0, 0x80_0000);
        proof {
            assert(pow2(22) == 0x40_0000);
            assert(v0 <= 0x400_0000) by (nonlinear_arith)
                requires
                    v0 as int == prod as int / 0x40_0000,
                    prod <= 0xff_ffff * 0xff_ffff,
            ;
            assert(2 * b * v0 <= 0x800_0000 && (1 - b) * v0 <= 0x400_0000) by (nonlinear_arith)
                requires
                    v0 <= 0x400_0000,
                    b <= 1,
            ;
        }
        let w = 2 * b as u64 * v0 as u64 + (1 - b) as u64 * v0 as u64;
        let v = Self::trunc(w, 1);
        let z = Self::or(fl1.z, fl2.z);
        let s = Self::xor(fl1.s, fl2.s);
        proof {
            let (z1, z2) = (fl1.z, fl2.z);
            assert(z1 | z2 <= 1) by (bit_vector)
                requires
                    z1 <= 1,
                    z2 <= 1,
            ;
        }
        let e = fl1.p + fl2.p + (MANTISSA_BITS - b) as i32;
        proof {
            assert(e * (1 - z as int) == if z == 0 { e as int } else { 0int }) by (nonlinear_arith)
                requires
                    z <= 1,
            ;
        }
        let p = e * (1 - z as i32);
        Self::new(v, p, z, s)
    }

    pub fn or(z1: u32, z2: u32) -> (r: u32)
        ensures
            r == z1 | z2,
    {
        z1 | z2
    }

    pub fn xor(z1: u32, z2: u32) -> (r: u32)
        ensures
            r == z1 ^ z2,
    {
        z1 ^ z2
    }
}

} // verus!
