//! Prime-field elements in the canonical 32-byte little-endian encoding.
//!
//! A `FieldElem` carries its value and the modulus of the field it belongs
//! to, both as 32-byte little-endian strings, with the value held reduced.
//! The modulus of the field fixed by the NIZK scheme is a named constant;
//! encoding to the scheme's scalar form refuses any other modulus.

use vstd::prelude::*;
use crate::bytes::{le_val, le_add, le_sub, le_lt, le_eq, p256, lemma_le_val_push,
    lemma_le_val_bound, lemma_le_val_split, lemma_le_val_injective, lemma_p256_succ,
    lemma_p256_pos};
use crate::errors::BridgeError;

verus! {

/// The little-endian bytes of the scalar-field modulus that the NIZK
/// scheme fixes: `2^252 + 27742317777372353535851937790883648493`, the
/// order of the ristretto255 scalar field the published scheme crate
/// is built over. Builds of the scheme over other curves fix other
/// moduli; artifacts only load against a bridge sharing this constant.
pub open spec fn nizk_modulus_seq() -> Seq<u8> {
    seq![
        0xedu8, 0xd3u8, 0xf5u8, 0x5cu8, 0x1au8, 0x63u8, 0x12u8, 0x58u8,
        0xd6u8, 0x9cu8, 0xf7u8, 0xa2u8, 0xdeu8, 0xf9u8, 0xdeu8, 0x14u8,
        0x00u8, 0x00u8, 0x00u8, 0x00u8, 0x00u8, 0x00u8, 0x00u8, 0x00u8,
        0x00u8, 0x00u8, 0x00u8, 0x00u8, 0x00u8, 0x00u8, 0x00u8, 0x10u8,
    ]
}

/// The value of the scheme's modulus.
pub open spec fn nizk_modulus_val() -> nat {
    le_val(nizk_modulus_seq())
}

pub proof fn lemma_nizk_modulus_at_least_two()
    ensures
        nizk_modulus_val() >= 2,
{
    assert(nizk_modulus_val() == 0xed + 256 * le_val(nizk_modulus_seq().skip(1)));
}

/// The scheme's modulus, as a 32-byte little-endian string.
pub fn nizk_modulus() -> (r: Vec<u8>)
    ensures
        r@ =~= nizk_modulus_seq(),
{
    let r: Vec<u8> = vec![
        0xed, 0xd3, 0xf5, 0x5c, 0x1a, 0x63, 0x12, 0x58,
        0xd6, 0x9c, 0xf7, 0xa2, 0xde, 0xf9, 0xde, 0x14,
        0x00, 0x00, 0x00, 0x00, 0x00, 0x00, 0x00, 0x00,
        0x00, 0x00, 0x00, 0x00, 0x00, 0x00, 0x00, 0x10,
    ];
    r
}

/// An element of a prime field, reduced below its modulus.
#[derive(Debug)]
pub struct FieldElem {
    /// Little-endian value, 32 bytes, less than the modulus.
    pub value: Vec<u8>,
    /// Little-endian modulus, 32 bytes, at least 2.
    pub modulus: Vec<u8>,
}

impl FieldElem {
    /// The mathematical value of this element.
    pub open spec fn val(self) -> nat {
        le_val(self.value@)
    }

    /// The modulus of the field this element belongs to.
    pub open spec fn md(self) -> nat {
        le_val(self.modulus@)
    }

    /// Well-formedness: canonical lengths, reduced value, sensible modulus.
    pub open spec fn wf(self) -> bool {
        &&& self.value@.len() == 32
        &&& self.modulus@.len() == 32
        &&& self.val() < self.md()
        &&& self.md() >= 2
    }

    /// Two elements of one field.
    pub open spec fn same_field(self, other: FieldElem) -> bool {
        self.modulus@ == other.modulus@
    }

    /// A full copy.
    pub fn dup(&self) -> (r: FieldElem)
        ensures
            r.value@ == self.value@,
            r.modulus@ == self.modulus@,
    {
        FieldElem { value: copy_bytes(&self.value), modulus: copy_bytes(&self.modulus) }
    }
}

/// A byte-for-byte copy.
pub fn copy_bytes(v: &Vec<u8>) -> (r: Vec<u8>)
    ensures
        r@ =~= v@,
{
    let mut r: Vec<u8> = Vec::new();
    let mut i: usize = 0;
    while i < v.len()
        invariant
            i <= v@.len(),
            r@ =~= v@.take(i as int),
        decreases v@.len() - i,
    {
        r.push(v[i]);
        i = i + 1;
    }
    r
}

/// 32 zero bytes, the value zero.
pub fn zero_bytes32() -> (r: Vec<u8>)
    ensures
        r@.len() == 32,
        le_val(r@) == 0,
{
    let mut r: Vec<u8> = Vec::new();
    let mut i: usize = 0;
    while i < 32
        invariant
            i <= 32,
            r@.len() == i,
            le_val(r@) == 0,
        decreases 32 - i,
    {
        proof {
            lemma_le_val_push(r@, 0);
        }
        r.push(0);
        i = i + 1;
    }
    r
}

/// The 32-byte little-endian form of a machine word.
pub fn u64_to_bytes32(x: u64) -> (r: Vec<u8>)
    ensures
        r@.len() == 32,
        le_val(r@) == x,
{
    let mut r: Vec<u8> = Vec::new();
    let mut v: u64 = x;
    let mut i: usize = 0;
    proof {
        assert(p256(0) == 1) by {
            vstd::arithmetic::power::lemma_pow0(256);
        }
        assert(v * p256(0) == v) by (nonlinear_arith)
            requires p256(0) == 1;
    }
    while i < 32
        invariant
            i <= 32,
            r@.len() == i,
            le_val(r@) + v * p256(i as nat) == x,
        decreases 32 - i,
    {
        let byte: u8 = (v % 256) as u8;
        let nv: u64 = v / 256;
        proof {
            lemma_le_val_push(r@, byte);
            lemma_p256_succ(i as nat);
            assert(v == 256 * nv + byte);
            assert(le_val(r@.push(byte)) + nv * (256 * p256(i as nat))
                == le_val(r@) + (byte + 256 * nv) * p256(i as nat)) by (nonlinear_arith)
                requires le_val(r@.push(byte)) == le_val(r@) + byte * p256(i as nat);
        }
        r.push(byte);
        v = nv;
        i = i + 1;
    }
    proof {
        lemma_p256_pos(32);
        lemma_u64_below_p256_32(x);
        if v != 0 {
            assert(v * p256(32) >= p256(32)) by (nonlinear_arith)
                requires p256(32) >= 1, v >= 1;
        }
    }
    r
}

proof fn lemma_u64_below_p256_32(x: u64)
    ensures
        (x as nat) < p256(32),
{
    vstd::arithmetic::power2::lemma2_to64();
    vstd::arithmetic::power2::lemma_pow2(64);
    lemma_p256_pow2_256();
    vstd::arithmetic::power2::lemma_pow2_strictly_increases(64, 256);
}

/// `256^32` is `2^256`.
pub proof fn lemma_p256_pow2_256()
    ensures
        p256(32) == vstd::arithmetic::power2::pow2(256),
{
    vstd::arithmetic::power2::lemma_pow2(256);
    vstd::arithmetic::power::lemma_pow_multiplies(2, 8, 32);
    vstd::arithmetic::power2::lemma_pow2(8);
    vstd::arithmetic::power2::lemma2_to64();
    assert(vstd::arithmetic::power::pow(2, 8) == 256);
}

/// Modular addition on 32-byte strings: `(a + b) % m`, for reduced inputs.
pub fn add_mod32(a: &Vec<u8>, b: &Vec<u8>, m: &Vec<u8>) -> (r: Vec<u8>)
    requires
        a@.len() == 32 && b@.len() == 32 && m@.len() == 32,
        le_val(a@) < le_val(m@),
        le_val(b@) < le_val(m@),
    ensures
        r@.len() == 32,
        le_val(r@) == (le_val(a@) + le_val(b@)) % le_val(m@),
        le_val(r@) < le_val(m@),
{
    let (s, carry) = le_add(a, b);
    let below_m = le_lt(&s, m);
    let ghost sum = le_val(a@) + le_val(b@);
    proof {
        lemma_le_val_bound(m@);
        lemma_le_val_bound(s@);
    }
    if carry || !below_m {
        let (d, borrow) = le_sub(&s, m);
        proof {
            if carry {
                assert(le_val(s@) == sum - p256(32));
                assert(le_val(s@) < le_val(m@));
                assert(borrow);
                assert(le_val(d@) == sum - le_val(m@));
            } else {
                assert(le_val(s@) == sum);
                assert(!borrow);
                assert(le_val(d@) == sum - le_val(m@));
            }
            assert(le_val(d@) < le_val(m@));
            assert(sum == 1 * le_val(m@) + le_val(d@));
            vstd::arithmetic::div_mod::lemma_fundamental_div_mod_converse(
                sum as int, le_val(m@) as int, 1, le_val(d@) as int);
        }
        d
    } else {
        proof {
            assert(le_val(s@) == sum);
            vstd::arithmetic::div_mod::lemma_small_mod(sum as nat, le_val(m@) as nat);
        }
        s
    }
}

/// The bit of `s` (as a little-endian string) at position `k`.
pub open spec fn bit_of(s: Seq<u8>, k: nat) -> nat {
    (le_val(s) / vstd::arithmetic::power2::pow2(k)) % 2
}

/// A small power of two as a byte.
fn pow2_small(k: usize) -> (r: u8)
    requires
        k < 8,
    ensures
        r == vstd::arithmetic::power2::pow2(k as nat),
{
    proof {
        vstd::arithmetic::power2::lemma2_to64();
    }
    if k == 0 { 1 }
    else if k == 1 { 2 }
    else if k == 2 { 4 }
    else if k == 3 { 8 }
    else if k == 4 { 16 }
    else if k == 5 { 32 }
    else if k == 6 { 64 }
    else { 128 }
}

/// Reading bit `k` of a 32-byte string out of its byte `k / 8`.
proof fn lemma_bit_from_byte(s: Seq<u8>, k: nat)
    requires
        s.len() == 32,
        k < 256,
    ensures
        bit_of(s, k) == ((s[(k / 8) as int] as nat) / vstd::arithmetic::power2::pow2((k % 8) as nat)) % 2,
{
    let q = k / 8;
    let r = k % 8;
    let byte = s[q as int] as nat;
    let n = le_val(s);
    let pq = p256(q);
    let pr = vstd::arithmetic::power2::pow2(r);
    let low = le_val(s.take(q as int));
    let hi = le_val(s.skip(q as int));
    lemma_le_val_split(s, q);
    lemma_le_val_bound(s.take(q as int));
    lemma_p256_pos(q);
    // n / 256^q == hi
    assert(n == hi * pq + low) by (nonlinear_arith)
        requires n == low + pq * hi;
    vstd::arithmetic::div_mod::lemma_fundamental_div_mod_converse(
        n as int, pq as int, hi as int, low as int);
    // pow2(k) == 256^q * pow2(r)
    assert(vstd::arithmetic::power2::pow2(k) == pq * pr) by {
        vstd::arithmetic::power2::lemma_pow2_adds((8 * q) as nat, r);
        lemma_p256_is_pow2(q);
    }
    // n / pow2(k) == hi / pow2(r)
    vstd::arithmetic::power2::lemma_pow2_pos(r);
    assert((n as int) / (vstd::arithmetic::power2::pow2(k) as int) == hi as int / (pr as int)) by {
        vstd::arithmetic::div_mod::lemma_div_denominator(n as int, pq as int, pr as int);
    }
    // hi == byte + 256 * h2
    assert(s.skip(q as int).len() > 0);
    assert(s.skip(q as int)[0] == s[q as int]);
    let h2 = le_val(s.skip(q as int).skip(1));
    assert(hi == byte + 256 * h2);
    // byte == u + pr * w with u < pr
    let u = byte % pr;
    let w = byte / pr;
    vstd::arithmetic::div_mod::lemma_fundamental_div_mod(byte as int, pr as int);
    vstd::arithmetic::div_mod::lemma_mod_bound(byte as int, pr as int);
    // hi / pr == w + (256 / pr) * h2; 256 = pr * pow2(8 - r)
    let ps = vstd::arithmetic::power2::pow2((8 - r) as nat);
    assert(pr * ps == 256) by {
        vstd::arithmetic::power2::lemma_pow2_adds(r, (8 - r) as nat);
        vstd::arithmetic::power2::lemma2_to64();
    }
    assert(hi == u + pr * (w + ps * h2)) by (nonlinear_arith)
        requires
            hi == byte + 256 * h2,
            byte == u + pr * w,
            256 == pr * ps;
    let qq = (w + ps * h2) as int;
    assert(hi as int == qq * (pr as int) + (u as int)) by (nonlinear_arith)
        requires hi == u + pr * (w + ps * h2), qq == (w + ps * h2) as int;
    assert(hi as int / (pr as int) == qq) by {
        vstd::arithmetic::div_mod::lemma_fundamental_div_mod_converse(
            hi as int, pr as int, qq, u as int);
    }
    // (w + ps * h2) % 2 == w % 2 since ps is even (r < 8 so 8 - r >= 1)
    let half = vstd::arithmetic::power2::pow2((7 - r) as nat);
    assert(ps == 2 * half) by {
        vstd::arithmetic::power2::lemma_pow2_adds(1, (7 - r) as nat);
        vstd::arithmetic::power2::lemma2_to64();
    }
    assert((w + ps * h2) % 2 == w % 2) by {
        assert(w + ps * h2 == (half * h2) * 2 + w) by (nonlinear_arith)
            requires ps == 2 * half;
        vstd::arithmetic::div_mod::lemma_mod_multiples_vanish(
            (half * h2) as int, w as int, 2);
    }
}

/// `256^q` is `2^(8q)`.
proof fn lemma_p256_is_pow2(q: nat)
    ensures
        p256(q) == vstd::arithmetic::power2::pow2((8 * q) as nat),
{
    vstd::arithmetic::power2::lemma_pow2((8 * q) as nat);
    vstd::arithmetic::power::lemma_pow_multiplies(2, 8, q);
    vstd::arithmetic::power2::lemma_pow2(8);
    vstd::arithmetic::power2::lemma2_to64();
    assert(vstd::arithmetic::power::pow(2, 8) == 256);
}

/// Modular product by binary expansion: `(a * n) % m` for a reduced `a`
/// and an arbitrary 32-byte `n`.
pub fn mul_mod32(a: &Vec<u8>, n: &Vec<u8>, m: &Vec<u8>) -> (r: Vec<u8>)
    requires
        a@.len() == 32 && n@.len() == 32 && m@.len() == 32,
        le_val(a@) < le_val(m@),
        le_val(m@) >= 2,
    ensures
        r@.len() == 32,
        le_val(r@) == (le_val(a@) * le_val(n@)) % le_val(m@),
        le_val(r@) < le_val(m@),
{
    let ghost a_val = le_val(a@);
    let ghost n_val = le_val(n@);
    let ghost m_val = le_val(m@);
    let mut acc = zero_bytes32();
    let mut j: usize = 0;
    proof {
        lemma_le_val_bound(n@);
        lemma_p256_pow2_256();
        vstd::arithmetic::power2::lemma_pow2_pos(256);
        vstd::arithmetic::div_mod::lemma_basic_div(n_val as int,
            vstd::arithmetic::power2::pow2(256) as int);
        assert(le_val(acc@) == (a_val * (n_val / vstd::arithmetic::power2::pow2(256))) % m_val) by {
            assert(n_val / vstd::arithmetic::power2::pow2(256) == 0);
            assert(a_val * 0 == 0) by (nonlinear_arith);
            vstd::arithmetic::div_mod::lemma_small_mod(0, m_val as nat);
        }
    }
    while j < 256
        invariant
            j <= 256,
            acc@.len() == 32,
            a@.len() == 32 && n@.len() == 32 && m@.len() == 32,
            a_val == le_val(a@) && n_val == le_val(n@) && m_val == le_val(m@),
            le_val(a@) < le_val(m@),
            le_val(m@) >= 2,
            le_val(acc@) < le_val(m@),
            le_val(acc@) == (a_val * (n_val / vstd::arithmetic::power2::pow2((256 - j) as nat))) % m_val,
        decreases 256 - j,
    {
        let ghost h = n_val / vstd::arithmetic::power2::pow2((256 - j) as nat);
        let k: usize = 255 - j;
        let byte: u8 = n[k / 8];
        let divisor: u8 = pow2_small(k % 8);
        proof {
            vstd::arithmetic::power2::lemma_pow2_pos((k % 8) as nat);
        }
        let bit: u8 = (byte / divisor) % 2;
        let doubled = add_mod32(&acc, &acc, m);
        let next = if bit == 1 { add_mod32(&doubled, a, m) } else { doubled };
        proof {
            let p_lo = vstd::arithmetic::power2::pow2((255 - j) as nat);
            let p_hi = vstd::arithmetic::power2::pow2((256 - j) as nat);
            vstd::arithmetic::power2::lemma_pow2_pos((255 - j) as nat);
            vstd::arithmetic::power2::lemma_pow2_pos((256 - j) as nat);
            lemma_bit_from_byte(n@, (255 - j) as nat);
            assert(bit == bit_of(n@, (255 - j) as nat));
            let h2 = n_val / p_lo;
            // h2 == 2 * h + bit
            assert(p_hi == p_lo * 2) by {
                vstd::arithmetic::power2::lemma_pow2_adds((255 - j) as nat, 1);
                vstd::arithmetic::power2::lemma2_to64();
            }
            assert(h == h2 / 2) by {
                vstd::arithmetic::div_mod::lemma_div_denominator(n_val as int, p_lo as int, 2);
            }
            assert(h2 == 2 * h + bit) by {
                vstd::arithmetic::div_mod::lemma_fundamental_div_mod(h2 as int, 2);
            }
            // next == (a * h2) % m
            let acc0 = le_val(acc@);
            assert(le_val(doubled@) == (acc0 + acc0) % m_val);
            assert((acc0 + acc0) % m_val == (a_val * (2 * h)) % m_val) by {
                vstd::arithmetic::div_mod::lemma_add_mod_noop(acc0 as int, acc0 as int, m_val as int);
                assert((a_val * h) % m_val + (a_val * h) % m_val == acc0 + acc0);
                vstd::arithmetic::div_mod::lemma_add_mod_noop(
                    (a_val * h) as int, (a_val * h) as int, m_val as int);
                assert(a_val * h + a_val * h == a_val * (2 * h)) by (nonlinear_arith);
            }
            if bit == 1 {
                assert(le_val(next@) == (le_val(doubled@) + a_val) % m_val);
                assert((le_val(doubled@) + a_val) % m_val == (a_val * (2 * h) + a_val) % m_val) by {
                    vstd::arithmetic::div_mod::lemma_add_mod_noop(
                        (a_val * (2 * h)) as int, a_val as int, m_val as int);
                    vstd::arithmetic::div_mod::lemma_small_mod(a_val as nat, m_val as nat);
                }
                assert(a_val * (2 * h) + a_val == a_val * h2) by (nonlinear_arith)
                    requires h2 == 2 * h + bit, bit == 1;
                assert(le_val(next@) == (a_val * h2) % m_val);
            } else {
                assert(h2 == 2 * h);
                assert(le_val(next@) == (a_val * h2) % m_val);
            }
        }
        acc = next;
        j = j + 1;
    }
    proof {
        vstd::arithmetic::power2::lemma2_to64();
        assert(n_val / vstd::arithmetic::power2::pow2(0) == n_val);
    }
    acc
}

impl FieldElem {
    /// The zero of the field with the given modulus.
    pub fn zero(modulus: &Vec<u8>) -> (r: FieldElem)
        requires
            modulus@.len() == 32,
            le_val(modulus@) >= 2,
        ensures
            r.wf(),
            r.val() == 0,
            r.modulus@ == modulus@,
    {
        FieldElem { value: zero_bytes32(), modulus: copy_bytes(modulus) }
    }

    /// A machine word, reduced into the field with the given modulus.
    pub fn from_u64(modulus: &Vec<u8>, x: u64) -> (r: FieldElem)
        requires
            modulus@.len() == 32,
            le_val(modulus@) >= 2,
        ensures
            r.wf(),
            r.val() == (x as int) % (le_val(modulus@) as int),
            r.modulus@ == modulus@,
    {
        let xb = u64_to_bytes32(x);
        let one = Self::one_bytes();
        let reduced = mul_mod32(&one, &xb, modulus);
        proof {
            assert(le_val(one@) * le_val(xb@) == x) by (nonlinear_arith)
                requires le_val(one@) == 1, le_val(xb@) == x;
        }
        FieldElem { value: reduced, modulus: copy_bytes(modulus) }
    }

    /// The 32-byte string of value one.
    fn one_bytes() -> (r: Vec<u8>)
        ensures
            r@.len() == 32,
            le_val(r@) == 1,
    {
        let mut r = zero_bytes32();
        let ghost before = r@;
        r.set(0, 1);
        proof {
            assert(r@ =~= seq![1u8].add(before.skip(1)));
            assert(r@.skip(1) =~= before.skip(1));
            assert(le_val(before) == before[0] + 256 * le_val(before.skip(1)));
            assert(le_val(r@) == 1 + 256 * le_val(before.skip(1)));
        }
        r
    }

    /// Field addition: both elements of one field.
    pub fn pf_add(&self, other: &FieldElem) -> (r: FieldElem)
        requires
            self.wf(),
            other.wf(),
            self.same_field(*other),
        ensures
            r.wf(),
            r.modulus@ == self.modulus@,
            r.val() == (self.val() + other.val()) % self.md(),
    {
        FieldElem {
            value: add_mod32(&self.value, &other.value, &self.modulus),
            modulus: copy_bytes(&self.modulus),
        }
    }

    /// Field multiplication: both elements of one field.
    pub fn pf_mul(&self, other: &FieldElem) -> (r: FieldElem)
        requires
            self.wf(),
            other.wf(),
            self.same_field(*other),
        ensures
            r.wf(),
            r.modulus@ == self.modulus@,
            r.val() == (self.val() * other.val()) % self.md(),
    {
        FieldElem {
            value: mul_mod32(&self.value, &other.value, &self.modulus),
            modulus: copy_bytes(&self.modulus),
        }
    }

    /// Field negation.
    pub fn pf_neg(&self) -> (r: FieldElem)
        requires
            self.wf(),
        ensures
            r.wf(),
            r.modulus@ == self.modulus@,
            r.val() == (self.md() - self.val()) % (self.md() as int),
    {
        let z = zero_bytes32();
        let is_zero = le_eq(&self.value, &z);
        if is_zero {
            proof {
                vstd::arithmetic::div_mod::lemma_mod_self_0(self.md() as int);
            }
            FieldElem { value: z, modulus: copy_bytes(&self.modulus) }
        } else {
            let (d, borrow) = le_sub(&self.modulus, &self.value);
            proof {
                assert(le_val(self.value@) > 0) by {
                    if le_val(self.value@) == 0 {
                        lemma_le_val_injective(self.value@, z@);
                    }
                }
                assert(!borrow);
                vstd::arithmetic::div_mod::lemma_small_mod(
                    (self.md() - self.val()) as nat, self.md() as nat);
            }
            FieldElem { value: d, modulus: copy_bytes(&self.modulus) }
        }
    }

    /// Whether this element's field is the one the NIZK scheme fixes.
    pub fn in_nizk_field(&self) -> (r: bool)
        requires
            self.modulus@.len() == 32,
        ensures
            r == (self.modulus@ =~= nizk_modulus_seq()),
    {
        let q = nizk_modulus();
        le_eq(&self.modulus, &q)
    }

    /// The canonical 32-byte scalar encoding of this element, produced
    /// only for the field the NIZK scheme fixes.
    pub fn encode(&self) -> (r: Result<Vec<u8>, BridgeError>)
        requires
            self.wf(),
        ensures
            match r {
                Ok(bytes) => self.modulus@ =~= nizk_modulus_seq() && bytes@ == self.value@,
                Err(e) => !(self.modulus@ =~= nizk_modulus_seq())
                    && (e matches BridgeError::FieldMismatch),
            },
    {
        if self.in_nizk_field() {
            Ok(copy_bytes(&self.value))
        } else {
            Err(BridgeError::FieldMismatch)
        }
    }

    /// The element of the scheme's field that a canonical 32-byte scalar
    /// encoding denotes.
    pub fn decode(bytes: &Vec<u8>) -> (r: Result<FieldElem, BridgeError>)
        requires
            bytes@.len() == 32,
        ensures
            match r {
                Ok(x) => le_val(bytes@) < nizk_modulus_val()
                    && x.wf()
                    && x.value@ == bytes@
                    && x.modulus@ =~= nizk_modulus_seq(),
                Err(e) => le_val(bytes@) >= nizk_modulus_val()
                    && (e matches BridgeError::FieldMismatch),
            },
    {
        let q = nizk_modulus();
        proof {
            lemma_nizk_modulus_at_least_two();
        }
        if le_lt(bytes, &q) {
            Ok(FieldElem { value: copy_bytes(bytes), modulus: q })
        } else {
            Err(BridgeError::FieldMismatch)
        }
    }
}

/// Canonicity: two well-formed elements of one field with one value are
/// byte-for-byte the same.
pub proof fn lemma_canonical_encoding(a: FieldElem, b: FieldElem)
    requires
        a.wf(),
        b.wf(),
        a.same_field(b),
        a.val() == b.val(),
    ensures
        a.value@ == b.value@,
{
    lemma_le_val_injective(a.value@, b.value@);
}

/// Encoding then decoding an element of the scheme's field gives the
/// element back bit-exactly: the encoded bytes determine the element.
pub proof fn lemma_encode_decode_roundtrip(x: FieldElem, bytes: Seq<u8>, back: FieldElem)
    requires
        x.wf(),
        x.modulus@ == nizk_modulus_seq(),
        bytes == x.value@,
        back.wf(),
        back.value@ == bytes,
        back.modulus@ == nizk_modulus_seq(),
    ensures
        back.val() == x.val(),
        back.value@ == x.value@,
        back.modulus@ == x.modulus@,
{
    lemma_canonical_encoding(x, back);
}

} // verus!
