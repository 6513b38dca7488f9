//! The byte substitution of the cipher and its inverse, built over GF(2^8)
//! with the reduction polynomial x^8 + x^4 + x^3 + x + 1.
use vstd::prelude::*;

verus! {

/// Multiplication by x (the byte 0x02) in the field.
pub open spec fn xtime(a: u8) -> u8 {
    ((a << 1u8) ^ (if a & 0x80u8 != 0 { 0x1bu8 } else { 0u8 })) as u8
}

/// `v` where `bit` is set in `b`, else 0.
pub open spec fn if_bit(b: u8, bit: u8, v: u8) -> u8 {
    if b & bit != 0 {
        v
    } else {
        0u8
    }
}

/// Field product of two bytes: the sum of `a * x^i` over the bits `i` set in `b`.
pub open spec fn gf_mul(a: u8, b: u8) -> u8 {
    let a1 = xtime(a);
    let a2 = xtime(a1);
    let a3 = xtime(a2);
    let a4 = xtime(a3);
    let a5 = xtime(a4);
    let a6 = xtime(a5);
    let a7 = xtime(a6);
    (if_bit(b, 0x01, a) ^ if_bit(b, 0x02, a1) ^ if_bit(b, 0x04, a2) ^ if_bit(b, 0x08, a3)
        ^ if_bit(b, 0x10, a4) ^ if_bit(b, 0x20, a5) ^ if_bit(b, 0x40, a6) ^ if_bit(
        b,
        0x80,
        a7,
    )) as u8
}

/// `x^254`, which is the multiplicative inverse of `x` when `x != 0`, and 0 for 0.
pub open spec fn field_inv(x: u8) -> u8 {
    let x2 = gf_mul(x, x);
    let x4 = gf_mul(x2, x2);
    let x8 = gf_mul(x4, x4);
    let x16 = gf_mul(x8, x8);
    let x32 = gf_mul(x16, x16);
    let x64 = gf_mul(x32, x32);
    let x128 = gf_mul(x64, x64);
    gf_mul(gf_mul(gf_mul(gf_mul(gf_mul(gf_mul(x2, x4), x8), x16), x32), x64), x128)
}

/// Circular left rotation of the bits of a byte.
pub open spec fn rotl8(b: u8, n: u8) -> u8 {
    ((b << n) | (b >> ((8 - n) as u8))) as u8
}

/// The affine map of the substitution: `q` xor its rotations by 1 to 4 bits.
pub open spec fn affine(q: u8) -> u8 {
    (q ^ rotl8(q, 1) ^ rotl8(q, 2) ^ rotl8(q, 3) ^ rotl8(q, 4)) as u8
}

/// The inverse of `affine`: the xor of the rotations by 1, 3 and 6 bits.
pub open spec fn affine_inv(b: u8) -> u8 {
    (rotl8(b, 1) ^ rotl8(b, 3) ^ rotl8(b, 6)) as u8
}

/// Forward substitution: `affine(x^-1) ^ 0x63`, which sends 0 to 0x63.
pub open spec fn sub_byte(x: u8) -> u8 {
    (affine(field_inv(x)) ^ 0x63u8) as u8
}

/// Inverse substitution.
pub open spec fn inv_sub_byte(y: u8) -> u8 {
    field_inv(affine_inv((y ^ 0x63u8) as u8))
}

proof fn lemma_affine_inverse(q: u8)
    by (bit_vector)
    ensures
        affine_inv(affine(q)) == q,
        affine(affine_inv(q)) == q,
{
}

/// The steps of `x^254` hold as named bytes, so that a bit-level query sees each product once.
#[verifier::rlimit(100)]
proof fn lemma_pow254_chain(
    x: u8, x2: u8, x4: u8, x8: u8, x16: u8, x32: u8, x64: u8, x128: u8,
    p1: u8, p2: u8, p3: u8, p4: u8, p5: u8, y: u8,
)
    by (bit_vector)
    requires
        x2 == gf_mul(x, x),
        x4 == gf_mul(x2, x2),
        x8 == gf_mul(x4, x4),
        x16 == gf_mul(x8, x8),
        x32 == gf_mul(x16, x16),
        x64 == gf_mul(x32, x32),
        x128 == gf_mul(x64, x64),
        p1 == gf_mul(x2, x4),
        p2 == gf_mul(p1, x8),
        p3 == gf_mul(p2, x16),
        p4 == gf_mul(p3, x32),
        p5 == gf_mul(p4, x64),
        y == gf_mul(p5, x128),
    ensures
        x != 0 ==> gf_mul(x, y) == 1,
        x == 0 ==> y == 0,
{
}

proof fn lemma_gf_mul_commutes(a: u8, b: u8)
    by (bit_vector)
    ensures
        gf_mul(a, b) == gf_mul(b, a),
{
}

proof fn lemma_gf_mul_distributes(a: u8, b: u8, c: u8)
    by (bit_vector)
    ensures
        gf_mul(a, (b ^ c) as u8) == gf_mul(a, b) ^ gf_mul(a, c),
{
}

proof fn lemma_gf_mul_no_zero_divisors(a: u8, b: u8)
    by (bit_vector)
    ensures
        a != 0 && b != 0 ==> gf_mul(a, b) != 0,
        gf_mul(a, 0) == 0,
{
}

proof fn lemma_xor_zero(a: u8, b: u8)
    by (bit_vector)
    ensures
        (a ^ b) as u8 == 0 ==> a == b,
        (a ^ a) as u8 == 0,
{
}

/// `field_inv` is the inverse in the field: `x * x^254 == 1` for every nonzero `x`,
/// and it sends 0 to 0.
pub proof fn lemma_field_inv_is_inverse(x: u8)
    ensures
        x != 0 ==> gf_mul(x, field_inv(x)) == 1,
        x == 0 ==> field_inv(x) == 0,
{
    let x2 = gf_mul(x, x);
    let x4 = gf_mul(x2, x2);
    let x8 = gf_mul(x4, x4);
    let x16 = gf_mul(x8, x8);
    let x32 = gf_mul(x16, x16);
    let x64 = gf_mul(x32, x32);
    let x128 = gf_mul(x64, x64);
    let p1 = gf_mul(x2, x4);
    let p2 = gf_mul(p1, x8);
    let p3 = gf_mul(p2, x16);
    let p4 = gf_mul(p3, x32);
    let p5 = gf_mul(p4, x64);
    let y = gf_mul(p5, x128);
    lemma_pow254_chain(x, x2, x4, x8, x16, x32, x64, x128, p1, p2, p3, p4, p5, y);
}

/// Inverting twice gives the byte back.
pub proof fn lemma_field_inv_involution(x: u8)
    ensures
        field_inv(field_inv(x)) == x,
{
    let y = field_inv(x);
    let z = field_inv(y);
    lemma_field_inv_is_inverse(x);
    lemma_field_inv_is_inverse(y);
    if x != 0 {
        lemma_gf_mul_no_zero_divisors(x, 0);
        assert(y != 0);
        lemma_gf_mul_commutes(x, y);
        lemma_gf_mul_distributes(y, x, z);
        lemma_xor_zero(1, 1);
        lemma_gf_mul_no_zero_divisors(y, (x ^ z) as u8);
        lemma_xor_zero(x, z);
    }
}

/// The two substitutions undo each other, so the forward one is a bijection on bytes:
/// every byte is the image of exactly one byte.
pub proof fn lemma_substitution_bijection()
    ensures
        forall|x: u8| #[trigger] inv_sub_byte(sub_byte(x)) == x,
        forall|y: u8| #[trigger] sub_byte(inv_sub_byte(y)) == y,
        forall|x1: u8, x2: u8| #[trigger] sub_byte(x1) == #[trigger] sub_byte(x2) ==> x1 == x2,
{
    assert forall|x: u8| #[trigger] inv_sub_byte(sub_byte(x)) == x by {
        let q = field_inv(x);
        lemma_affine_inverse(q);
        lemma_xor_const(affine(q));
        lemma_field_inv_involution(x);
    }
    assert forall|y: u8| #[trigger] sub_byte(inv_sub_byte(y)) == y by {
        let b = (y ^ 0x63u8) as u8;
        lemma_field_inv_involution(affine_inv(b));
        lemma_affine_inverse(b);
        lemma_xor_const(y);
    }
    assert forall|x1: u8, x2: u8| #[trigger] sub_byte(x1) == #[trigger] sub_byte(x2) implies x1
        == x2 by {
        assert(inv_sub_byte(sub_byte(x1)) == x1);
        assert(inv_sub_byte(sub_byte(x2)) == x2);
    }
}

proof fn lemma_xor_const(a: u8)
    by (bit_vector)
    ensures
        ((a ^ 0x63u8) as u8 ^ 0x63u8) as u8 == a,
{
}

fn xtime_exec(a: u8) -> (r: u8)
    ensures
        r == xtime(a),
{
    (a << 1u8) ^ (if a & 0x80u8 != 0 { 0x1bu8 } else { 0u8 })
}

fn if_bit_exec(b: u8, bit: u8, v: u8) -> (r: u8)
    ensures
        r == if_bit(b, bit, v),
{
    if b & bit != 0 {
        v
    } else {
        0u8
    }
}

fn gf_mul_exec(a: u8, b: u8) -> (r: u8)
    ensures
        r == gf_mul(a, b),
{
    let a1 = xtime_exec(a);
    let a2 = xtime_exec(a1);
    let a3 = xtime_exec(a2);
    let a4 = xtime_exec(a3);
    let a5 = xtime_exec(a4);
    let a6 = xtime_exec(a5);
    let a7 = xtime_exec(a6);
    if_bit_exec(b, 0x01, a) ^ if_bit_exec(b, 0x02, a1) ^ if_bit_exec(b, 0x04, a2) ^ if_bit_exec(
        b,
        0x08,
        a3,
    ) ^ if_bit_exec(b, 0x10, a4) ^ if_bit_exec(b, 0x20, a5) ^ if_bit_exec(b, 0x40, a6)
        ^ if_bit_exec(b, 0x80, a7)
}

fn field_inv_exec(x: u8) -> (r: u8)
    ensures
        r == field_inv(x),
{
    let x2 = gf_mul_exec(x, x);
    let x4 = gf_mul_exec(x2, x2);
    let x8 = gf_mul_exec(x4, x4);
    let x16 = gf_mul_exec(x8, x8);
    let x32 = gf_mul_exec(x16, x16);
    let x64 = gf_mul_exec(x32, x32);
    let x128 = gf_mul_exec(x64, x64);
    let p1 = gf_mul_exec(x2, x4);
    let p2 = gf_mul_exec(p1, x8);
    let p3 = gf_mul_exec(p2, x16);
    let p4 = gf_mul_exec(p3, x32);
    let p5 = gf_mul_exec(p4, x64);
    gf_mul_exec(p5, x128)
}

fn sub_byte_exec(x: u8) -> (r: u8)
    ensures
        r == sub_byte(x),
{
    let q = field_inv_exec(x);
    let t = q ^ ((q << 1u8) | (q >> 7u8)) ^ ((q << 2u8) | (q >> 6u8)) ^ ((q << 3u8) | (q >> 5u8))
        ^ ((q << 4u8) | (q >> 4u8));
    assert(t == affine(q)) by (bit_vector)
        requires
            t == q ^ ((q << 1u8) | (q >> 7u8)) ^ ((q << 2u8) | (q >> 6u8)) ^ ((q << 3u8) | (q
                >> 5u8)) ^ ((q << 4u8) | (q >> 4u8)),
    ;
    t ^ 0x63u8
}

/// Builds the forward substitution table and its inverse, as `(forward, inverse)`.
///
/// Entry `x` of the forward table is `affine(x^-1) ^ 0x63` in GF(2^8) (0 goes to 0x63);
/// the inverse table is filled by `inverse[forward[x]] = x`.
pub fn initialize_aes_sbox() -> (r: (Vec<u8>, Vec<u8>))
    ensures
        r.0@.len() == 256,
        r.1@.len() == 256,
        forall|i: int| 0 <= i < 256 ==> r.0@[i] == sub_byte(i as u8),
        forall|i: int| 0 <= i < 256 ==> r.1@[i] == inv_sub_byte(i as u8),
        forall|i: int| 0 <= i < 256 ==> r.1@[r.0@[i] as int] == i,
        forall|i: int| 0 <= i < 256 ==> r.0@[r.1@[i] as int] == i,
{
    proof {
        lemma_substitution_bijection();
    }
    let mut sbox: Vec<u8> = Vec::new();
    let mut x: usize = 0;
    while x < 256
        invariant
            x <= 256,
            sbox@.len() == x,
            forall|i: int| 0 <= i < x ==> sbox@[i] == sub_byte(i as u8),
        decreases 256 - x,
    {
        let s = sub_byte_exec(x as u8);
        sbox.push(s);
        x = x + 1;
    }
    let mut inverse_sbox: Vec<u8> = vec![0u8; 256];
    let mut x: usize = 0;
    while x < 256
        invariant
            x <= 256,
            sbox@.len() == 256,
            inverse_sbox@.len() == 256,
            forall|i: int| 0 <= i < 256 ==> sbox@[i] == sub_byte(i as u8),
            forall|v: u8| (v as int) < x ==> inverse_sbox@[#[trigger] sub_byte(v) as int] == v,
            forall|x1: u8, x2: u8| #[trigger] sub_byte(x1) == #[trigger] sub_byte(x2) ==> x1 == x2,
        decreases 256 - x,
    {
        let s = sbox[x];
        inverse_sbox.set(s as usize, x as u8);
        proof {
            assert forall|v: u8| (v as int) < x + 1 implies inverse_sbox@[#[trigger] sub_byte(v)
                as int] == v by {
                if (v as int) < x {
                    assert(sub_byte(v) != sub_byte(x as u8));
                }
            }
        }
        x = x + 1;
    }
    proof {
        assert forall|i: int| 0 <= i < 256 implies inverse_sbox@[i] == inv_sub_byte(i as u8) by {
            let z = inv_sub_byte(i as u8);
            assert(sub_byte(z) == i as u8);
            assert(inverse_sbox@[sub_byte(z) as int] == z);
        }
    }
    (sbox, inverse_sbox)
}

/// The substitution tables, computed once and then only read.
pub struct SubstitutionTables {
    forward: Vec<u8>,
    inverse: Vec<u8>,
}

impl SubstitutionTables {
    #[verifier::type_invariant]
    spec fn tables_match(self) -> bool {
        &&& self.forward@.len() == 256
        &&& self.inverse@.len() == 256
        &&& forall|i: int| 0 <= i < 256 ==> self.forward@[i] == sub_byte(i as u8)
        &&& forall|i: int| 0 <= i < 256 ==> self.inverse@[i] == inv_sub_byte(i as u8)
    }

    pub fn new() -> (r: SubstitutionTables) {
        let (forward, inverse) = initialize_aes_sbox();
        SubstitutionTables { forward, inverse }
    }

    /// Forward substitution of one byte.
    pub fn substitute(&self, x: u8) -> (r: u8)
        ensures
            r == sub_byte(x),
    {
        proof {
            use_type_invariant(self);
        }
        self.forward[x as usize]
    }

    /// Inverse substitution of one byte.
    pub fn invert(&self, y: u8) -> (r: u8)
        ensures
            r == inv_sub_byte(y),
    {
        proof {
            use_type_invariant(self);
        }
        self.inverse[y as usize]
    }
}

} // verus!
