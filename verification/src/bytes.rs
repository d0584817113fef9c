//! Little-endian byte-string arithmetic.
//!
//! Field elements and scalar encodings throughout the crate are canonical
//! little-endian byte strings. This module gives byte strings their
//! mathematical value and provides the verified comparison, addition and
//! subtraction routines that the field layer is built on.

use vstd::prelude::*;

verus! {

/// The mathematical value of a little-endian byte string:
/// `s[0] + 256*s[1] + 256^2*s[2] + ...`.
pub open spec fn le_val(s: Seq<u8>) -> nat
    decreases s.len(),
{
    if s.len() == 0 {
        0
    } else {
        (s[0] + 256 * le_val(s.skip(1))) as nat
    }
}

/// `256^n`, the weight of the byte at position `n`.
pub open spec fn p256(n: nat) -> nat {
    vstd::arithmetic::power::pow(256, n) as nat
}

pub proof fn lemma_p256_succ(n: nat)
    ensures
        p256(n + 1) == 256 * p256(n),
{
    vstd::arithmetic::power::lemma_pow_positive(256, n);
    vstd::arithmetic::power::lemma_pow_positive(256, n + 1);
    vstd::arithmetic::power::lemma_pow1(256);
    vstd::arithmetic::power::lemma_pow_adds(256, 1, n);
}

pub proof fn lemma_p256_pos(n: nat)
    ensures
        p256(n) >= 1,
{
    vstd::arithmetic::power::lemma_pow_positive(256, n);
}

/// The value of a byte string is bounded by `256^len`.
pub proof fn lemma_le_val_bound(s: Seq<u8>)
    ensures
        le_val(s) < p256(s.len()),
    decreases s.len(),
{
    if s.len() == 0 {
        assert(p256(0) == 1) by {
            vstd::arithmetic::power::lemma_pow0(256);
        }
    } else {
        lemma_le_val_bound(s.skip(1));
        lemma_p256_succ((s.len() - 1) as nat);
        assert(le_val(s) <= 255 + 256 * le_val(s.skip(1)));
    }
}

/// Appending a most-significant byte adds `b * 256^len` to the value.
pub proof fn lemma_le_val_push(s: Seq<u8>, b: u8)
    ensures
        le_val(s.push(b)) == le_val(s) + b * p256(s.len()),
    decreases s.len(),
{
    if s.len() == 0 {
        assert(s.push(b).skip(1) =~= Seq::<u8>::empty());
        assert(p256(0) == 1) by {
            vstd::arithmetic::power::lemma_pow0(256);
        }
        assert(le_val(s.push(b)) == b + 256 * le_val(Seq::<u8>::empty()));
        assert(le_val(s) == 0);
    } else {
        let m = (s.len() - 1) as nat;
        assert(s.push(b).skip(1) =~= s.skip(1).push(b));
        lemma_le_val_push(s.skip(1), b);
        lemma_p256_succ(m);
        assert(le_val(s.push(b)) == s[0] + 256 * (le_val(s.skip(1)) + b * p256(m)));
        assert(256 * (le_val(s.skip(1)) + b * p256(m))
            == 256 * le_val(s.skip(1)) + b * (256 * p256(m)))
            by (nonlinear_arith);
        assert(b * p256(s.len()) == b * (256 * p256(m))) by (nonlinear_arith)
            requires p256(s.len()) == 256 * p256(m);
        assert(le_val(s) == s[0] + 256 * le_val(s.skip(1)));
    }
}

/// A byte string's value splits at any position `n` into a low and a high part.
pub proof fn lemma_le_val_split(s: Seq<u8>, n: nat)
    requires
        n <= s.len(),
    ensures
        le_val(s) == le_val(s.take(n as int)) + p256(n) * le_val(s.skip(n as int)),
    decreases n,
{
    if n == 0 {
        assert(s.take(0) =~= Seq::<u8>::empty());
        assert(s.skip(0) =~= s);
        assert(p256(0) == 1) by {
            vstd::arithmetic::power::lemma_pow0(256);
        }
    } else {
        let t = s.skip(1);
        lemma_le_val_split(t, (n - 1) as nat);
        assert(s.take(n as int).skip(1) =~= t.take(n - 1));
        assert(s.skip(n as int) =~= t.skip(n - 1));
        lemma_p256_succ((n - 1) as nat);
        assert(le_val(s.take(n as int)) == s[0] + 256 * le_val(t.take(n - 1)));
        assert(le_val(s) == s[0] + 256 * (le_val(t.take(n - 1)) + p256((n - 1) as nat) * le_val(t.skip(n - 1))));
        assert(256 * (le_val(t.take(n - 1)) + p256((n - 1) as nat) * le_val(t.skip(n - 1)))
            == 256 * le_val(t.take(n - 1)) + (256 * p256((n - 1) as nat)) * le_val(t.skip(n - 1)))
            by (nonlinear_arith);
    }
}

/// Two byte strings of one length with one value are the same string.
pub proof fn lemma_le_val_injective(a: Seq<u8>, b: Seq<u8>)
    requires
        a.len() == b.len(),
        le_val(a) == le_val(b),
    ensures
        a =~= b,
    decreases a.len(),
{
    if a.len() > 0 {
        assert(le_val(a) % 256 == a[0] && le_val(a) / 256 == le_val(a.skip(1))) by {
            lemma_head_tail(a);
        }
        assert(le_val(b) % 256 == b[0] && le_val(b) / 256 == le_val(b.skip(1))) by {
            lemma_head_tail(b);
        }
        lemma_le_val_injective(a.skip(1), b.skip(1));
        assert(a =~= seq![a[0]].add(a.skip(1)));
        assert(b =~= seq![b[0]].add(b.skip(1)));
    }
}

proof fn lemma_head_tail(s: Seq<u8>)
    requires
        s.len() > 0,
    ensures
        le_val(s) % 256 == s[0],
        le_val(s) / 256 == le_val(s.skip(1)),
{
    let r = le_val(s.skip(1)) as int;
    assert((s[0] + 256 * r) % 256 == s[0] && (s[0] + 256 * r) / 256 == r) by (nonlinear_arith)
        requires 0 <= s[0] < 256 && r >= 0;
}

/// Byte-wise equality of two equally long strings.
pub fn le_eq(a: &Vec<u8>, b: &Vec<u8>) -> (r: bool)
    requires
        a@.len() == b@.len(),
    ensures
        r == (a@ =~= b@),
{
    let n = a.len();
    let mut i: usize = 0;
    while i < n
        invariant
            n == a@.len() == b@.len(),
            i <= n,
            forall|j: int| 0 <= j < i ==> a@[j] == b@[j],
        decreases n - i,
    {
        if a[i] != b[i] {
            return false;
        }
        i = i + 1;
    }
    true
}

/// Addition with carry-out: the pair `(r, c)` satisfies
/// `le_val(r) + c * 256^len == le_val(a) + le_val(b)`.
pub fn le_add(a: &Vec<u8>, b: &Vec<u8>) -> (res: (Vec<u8>, bool))
    requires
        a@.len() == b@.len(),
    ensures
        res.0@.len() == a@.len(),
        le_val(res.0@) + (if res.1 { p256(a@.len()) } else { 0 }) == le_val(a@) + le_val(b@),
{
    let n = a.len();
    let mut out: Vec<u8> = Vec::new();
    let mut carry: u8 = 0;
    let mut i: usize = 0;
    while i < n
        invariant
            n == a@.len() == b@.len(),
            i <= n,
            out@.len() == i,
            carry <= 1,
            le_val(out@) + carry * p256(i as nat) == le_val(a@.take(i as int)) + le_val(b@.take(i as int)),
        decreases n - i,
    {
        let s: u32 = a[i] as u32 + b[i] as u32 + carry as u32;
        let byte: u8 = (s % 256) as u8;
        let new_carry: u8 = (s / 256) as u8;
        proof {
            lemma_le_val_push(out@, byte);
            lemma_p256_succ(i as nat);
            assert(a@.take(i + 1) =~= a@.take(i as int).push(a@[i as int]));
            assert(b@.take(i + 1) =~= b@.take(i as int).push(b@[i as int]));
            lemma_le_val_push(a@.take(i as int), a@[i as int]);
            lemma_le_val_push(b@.take(i as int), b@[i as int]);
            assert(byte + 256 * new_carry == a@[i as int] + b@[i as int] + carry);
            assert(le_val(out@.push(byte)) + new_carry * (256 * p256(i as nat))
                == le_val(out@) + (byte + 256 * new_carry) * p256(i as nat)) by (nonlinear_arith)
                requires le_val(out@.push(byte)) == le_val(out@) + byte * p256(i as nat);
            assert((a@[i as int] + b@[i as int] + carry) * p256(i as nat)
                == a@[i as int] * p256(i as nat) + b@[i as int] * p256(i as nat) + carry * p256(i as nat))
                by (nonlinear_arith);
        }
        out.push(byte);
        carry = new_carry;
        i = i + 1;
    }
    proof {
        assert(a@.take(n as int) =~= a@);
        assert(b@.take(n as int) =~= b@);
    }
    (out, carry == 1)
}

/// Subtraction with borrow-out: the pair `(r, bo)` satisfies
/// `le_val(r) == le_val(a) - le_val(b) + bo * 256^len`.
/// The borrow is set exactly when `le_val(a) < le_val(b)`.
pub fn le_sub(a: &Vec<u8>, b: &Vec<u8>) -> (res: (Vec<u8>, bool))
    requires
        a@.len() == b@.len(),
    ensures
        res.0@.len() == a@.len(),
        le_val(res.0@) == le_val(a@) - le_val(b@) + (if res.1 { p256(a@.len()) } else { 0 }),
        res.1 == (le_val(a@) < le_val(b@)),
{
    let n = a.len();
    let mut out: Vec<u8> = Vec::new();
    let mut borrow: u8 = 0;
    let mut i: usize = 0;
    while i < n
        invariant
            n == a@.len() == b@.len(),
            i <= n,
            out@.len() == i,
            borrow <= 1,
            le_val(out@) == le_val(a@.take(i as int)) - le_val(b@.take(i as int)) + borrow * p256(i as nat),
        decreases n - i,
    {
        let t: u32 = 256 + a[i] as u32 - b[i] as u32 - borrow as u32;
        let byte: u8 = (t % 256) as u8;
        let new_borrow: u8 = 1 - (t / 256) as u8;
        proof {
            lemma_le_val_push(out@, byte);
            lemma_p256_succ(i as nat);
            assert(a@.take(i + 1) =~= a@.take(i as int).push(a@[i as int]));
            assert(b@.take(i + 1) =~= b@.take(i as int).push(b@[i as int]));
            lemma_le_val_push(a@.take(i as int), a@[i as int]);
            lemma_le_val_push(b@.take(i as int), b@[i as int]);
            assert(byte == a@[i as int] - b@[i as int] - borrow + 256 * new_borrow);
            assert(le_val(out@.push(byte))
                == le_val(a@.take(i as int)) - le_val(b@.take(i as int))
                    + (a@[i as int] - b@[i as int] - borrow + 256 * new_borrow) * p256(i as nat)
                    + borrow * p256(i as nat)) by (nonlinear_arith)
                requires
                    le_val(out@.push(byte)) == le_val(out@) + byte * p256(i as nat),
                    le_val(out@) == le_val(a@.take(i as int)) - le_val(b@.take(i as int)) + borrow * p256(i as nat),
                    byte == a@[i as int] - b@[i as int] - borrow + 256 * new_borrow;
            assert((a@[i as int] - b@[i as int] - borrow + 256 * new_borrow) * p256(i as nat)
                == a@[i as int] * p256(i as nat) - b@[i as int] * p256(i as nat)
                    - borrow * p256(i as nat) + new_borrow * (256 * p256(i as nat)))
                by (nonlinear_arith);
        }
        out.push(byte);
        borrow = new_borrow;
        i = i + 1;
    }
    proof {
        assert(a@.take(n as int) =~= a@);
        assert(b@.take(n as int) =~= b@);
        lemma_le_val_bound(out@);
        lemma_le_val_bound(b@);
        lemma_p256_pos(n as nat);
    }
    (out, borrow == 1)
}

/// The canonical little-endian byte string of a number, at a given length.
pub open spec fn le_bytes_of(n: nat, len: nat) -> Seq<u8>
    decreases len,
{
    if len == 0 {
        Seq::empty()
    } else {
        seq![(n % 256) as u8].add(le_bytes_of(n / 256, (len - 1) as nat))
    }
}

/// The canonical byte string has the required length and, for a number
/// within range, the required value.
pub proof fn lemma_le_bytes_of_val(n: nat, len: nat)
    ensures
        le_bytes_of(n, len).len() == len,
        n < p256(len) ==> le_val(le_bytes_of(n, len)) == n,
    decreases len,
{
    if len > 0 {
        lemma_le_bytes_of_val(n / 256, (len - 1) as nat);
        let s = le_bytes_of(n, len);
        assert(s.skip(1) =~= le_bytes_of(n / 256, (len - 1) as nat));
        if n < p256(len) {
            lemma_p256_succ((len - 1) as nat);
            assert(n / 256 < p256((len - 1) as nat)) by {
                vstd::arithmetic::div_mod::lemma_fundamental_div_mod(n as int, 256);
                assert(n == 256 * (n / 256) + n % 256);
                if n / 256 >= p256((len - 1) as nat) {
                    assert(256 * (n / 256) >= 256 * p256((len - 1) as nat))
                        by (nonlinear_arith)
                        requires n / 256 >= p256((len - 1) as nat);
                }
            }
            vstd::arithmetic::div_mod::lemma_fundamental_div_mod(n as int, 256);
            assert(s.len() > 0);
            assert(s[0] == (n % 256) as u8);
            assert(le_val(s) == s[0] + 256 * le_val(s.skip(1)));
            assert(le_val(s.skip(1)) == n / 256);
            assert(le_val(s) == n % 256 + 256 * (n / 256));
        }
    } else {
        assert(p256(0) == 1) by {
            vstd::arithmetic::power::lemma_pow0(256);
        }
    }
}

/// A 32-byte string is the canonical string of its value.
pub proof fn lemma_le_bytes_of_roundtrip(s: Seq<u8>)
    requires
        s.len() == 32,
    ensures
        le_bytes_of(le_val(s), 32) == s,
{
    lemma_le_val_bound(s);
    lemma_le_bytes_of_val(le_val(s), 32);
    lemma_le_val_injective(le_bytes_of(le_val(s), 32), s);
}


/// Strict comparison by value.
pub fn le_lt(a: &Vec<u8>, b: &Vec<u8>) -> (r: bool)
    requires
        a@.len() == b@.len(),
    ensures
        r == (le_val(a@) < le_val(b@)),
{
    let (_, borrow) = le_sub(a, b);
    borrow
}

} // verus!
