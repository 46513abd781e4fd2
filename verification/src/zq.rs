//! Arithmetic modulo a word-sized modulus.
//!
//! Every scalar operation comes in a branch-free form, whose control flow
//! does not depend on the operands, and in a form named `_vt` that may
//! branch on them.

use crate::errors::Error;
use vstd::arithmetic::div_mod::*;
use vstd::arithmetic::mul::*;
use vstd::arithmetic::power::*;
use vstd::prelude::*;

verus! {

/// `2^64`.
pub open spec fn word() -> int {
    0x1_0000_0000_0000_0000
}

/// `(a + b) mod p`.
pub open spec fn add_mod(a: int, b: int, p: int) -> int {
    (a + b) % p
}

/// `(a - b) mod p`.
pub open spec fn sub_mod(a: int, b: int, p: int) -> int {
    (a - b) % p
}

/// `-a mod p`.
pub open spec fn neg_mod(a: int, p: int) -> int {
    (-a) % p
}

/// `a * b mod p`.
pub open spec fn mul_mod(a: int, b: int, p: int) -> int {
    (a * b) % p
}

/// `a^e mod p`.
pub open spec fn pow_mod(a: int, e: nat, p: int) -> int {
    pow(a, e) % p
}

/// The inverse of `a` modulo `p` as Fermat's little theorem gives it:
/// `a^(p-2) mod p`, where that is an inverse of `a`.
pub open spec fn inv_mod(a: int, p: int) -> Option<int> {
    let x = pow_mod(a, (p - 2) as nat, p);
    if mul_mod(a, x, p) == 1 {
        Some(x)
    } else {
        None
    }
}

/// The Shoup companion of `a`: `floor(a * 2^64 / p)`.
pub open spec fn shoup_of(a: int, p: int) -> int {
    (a * word()) / p
}

/// Every entry of `v` is a residue modulo `p`.
pub open spec fn is_reduced(v: Seq<u64>, p: int) -> bool {
    forall|i: int| 0 <= i < v.len() ==> (#[trigger] v[i]) < p
}

/// Entry-wise sum modulo `p`.
pub open spec fn add_seq(a: Seq<u64>, b: Seq<u64>, p: int) -> Seq<u64> {
    Seq::new(a.len(), |i: int| add_mod(a[i] as int, b[i] as int, p) as u64)
}

/// Entry-wise difference modulo `p`.
pub open spec fn sub_seq(a: Seq<u64>, b: Seq<u64>, p: int) -> Seq<u64> {
    Seq::new(a.len(), |i: int| sub_mod(a[i] as int, b[i] as int, p) as u64)
}

/// Entry-wise opposite modulo `p`.
pub open spec fn neg_seq(a: Seq<u64>, p: int) -> Seq<u64> {
    Seq::new(a.len(), |i: int| neg_mod(a[i] as int, p) as u64)
}

/// Entry-wise product modulo `p`.
pub open spec fn mul_seq(a: Seq<u64>, b: Seq<u64>, p: int) -> Seq<u64> {
    Seq::new(a.len(), |i: int| mul_mod(a[i] as int, b[i] as int, p) as u64)
}

/// Every entry multiplied by `s` modulo `p`.
pub open spec fn scale_seq(a: Seq<u64>, s: int, p: int) -> Seq<u64> {
    Seq::new(a.len(), |i: int| mul_mod(a[i] as int, s, p) as u64)
}

/// Every entry reduced modulo `p`.
pub open spec fn reduce_seq(a: Seq<u64>, p: int) -> Seq<u64> {
    Seq::new(a.len(), |i: int| (a[i] as int % p) as u64)
}

/// The Shoup companion of every entry.
pub open spec fn shoup_seq(a: Seq<u64>, p: int) -> Seq<u64> {
    Seq::new(a.len(), |i: int| shoup_of(a[i] as int, p) as u64)
}

/// Congruent factors give congruent products.
pub proof fn lemma_mul_congruent(a: int, b: int, c: int, d: int, p: int)
    requires
        p > 0,
        a % p == c % p,
        b % p == d % p,
    ensures
        (a * b) % p == (c * d) % p,
{
    lemma_mul_mod_noop_general(a, b, p);
    lemma_mul_mod_noop_general(c, d, p);
}

/// Modular powers multiply when their exponents add.
pub proof fn lemma_pow_mod_adds(a: int, e1: nat, e2: nat, p: int)
    requires
        p > 0,
    ensures
        pow_mod(a, e1 + e2, p) == mul_mod(pow_mod(a, e1, p), pow_mod(a, e2, p), p),
{
    lemma_pow_adds(a, e1, e2);
    lemma_mul_mod_noop_general(pow(a, e1), pow(a, e2), p);
}

/// The quotient that Shoup's method estimates leaves a remainder below `2p`.
pub proof fn lemma_shoup_bound(a: int, b: int, p: int)
    requires
        0 < p,
        0 <= a < word(),
        0 <= b < p,
    ensures
        0 <= a * b - ((a * shoup_of(b, p)) / word()) * p < 2 * p,
        (a * shoup_of(b, p)) / word() >= 0,
        shoup_of(b, p) < word(),
        shoup_of(b, p) >= 0,
{
    let w = word();
    let bs = shoup_of(b, p);
    let rho = (b * w) % p;
    lemma_fundamental_div_mod(b * w, p);
    assert(b * w == p * bs + rho);
    assert(0 <= rho < p) by {
        lemma_mod_bound(b * w, p);
    }
    assert(bs >= 0 && bs < w) by (nonlinear_arith)
        requires
            b * w == p * bs + rho,
            0 <= rho < p,
            0 <= b < p,
            w > 0,
    ;
    let q = (a * bs) / w;
    let sigma = (a * bs) % w;
    lemma_fundamental_div_mod(a * bs, w);
    lemma_mod_bound(a * bs, w);
    assert(a * bs == w * q + sigma);
    assert(0 <= a * bs) by (nonlinear_arith)
        requires
            0 <= a,
            0 <= bs,
    ;
    assert(q >= 0) by (nonlinear_arith)
        requires
            a * bs == w * q + sigma,
            0 <= sigma < w,
            0 <= a * bs,
    ;
    assert((a * b - q * p) * w == sigma * p + a * rho) by (nonlinear_arith)
        requires
            b * w == p * bs + rho,
            a * bs == w * q + sigma,
    ;
    assert(0 <= a * b - q * p < 2 * p) by (nonlinear_arith)
        requires
            (a * b - q * p) * w == sigma * p + a * rho,
            0 <= sigma < w,
            0 <= rho < p,
            0 <= a < w,
            w > 0,
    ;
}

/// A modulus `p` with `2 <= p < 2^62`.
#[derive(Debug, Clone, Copy, PartialEq, Eq)]
pub struct Modulus {
    p: u64,
}

impl View for Modulus {
    type V = int;

    closed spec fn view(&self) -> int {
        self.p as int
    }
}

/// Brings a value of `[0, 2p)` into `[0, p)` without branching on it.
fn reduce_once(x: u64, p: u64) -> (r: u64)
    requires
        0 < p < 0x4000_0000_0000_0000,
        x < 2 * p,
    ensures
        r == x as int % p as int,
        r == if x >= p { x - p } else { x as int },
{
    let t = x.wrapping_sub(p);
    let borrow = t >> 63;
    proof {
        assert(t >= 0x8000_0000_0000_0000 ==> t >> 63 == 1) by (bit_vector);
        assert(t < 0x8000_0000_0000_0000 ==> t >> 63 == 0) by (bit_vector);
        if x >= p {
            lemma_fundamental_div_mod_converse(x as int, p as int, 1, x - p);
        } else {
            lemma_small_mod(x as nat, p as nat);
        }
    }
    t.wrapping_add(borrow * p)
}

impl Modulus {
    /// The modulus lies in `[2, 2^62)`.
    pub open spec fn wf(&self) -> bool {
        2 <= self@ < 0x4000_0000_0000_0000
    }

    /// The modulus `p`; fails where `p` lies outside `[2, 2^62)`.
    pub fn new(p: u64) -> (r: Result<Modulus, Error>)
        ensures
            r is Ok <==> 2 <= p < 0x4000_0000_0000_0000,
            r matches Ok(m) ==> m.wf() && m@ == p,
            r matches Err(e) ==> e == Error::ModulusOutOfRange,
    {
        if p < 2 || p >= 0x4000_0000_0000_0000 {
            Err(Error::ModulusOutOfRange)
        } else {
            Ok(Modulus { p })
        }
    }

    /// The value of the modulus.
    pub fn modulus(&self) -> (r: u64)
        ensures
            r == self@,
    {
        self.p
    }

    /// `a + b mod p`.
    pub fn add(&self, a: u64, b: u64) -> (r: u64)
        requires
            self.wf(),
            a < self@,
            b < self@,
        ensures
            r == add_mod(a as int, b as int, self@),
            r < self@,
    {
        reduce_once(a + b, self.p)
    }

    /// `a + b mod p`, branching on the operands.
    pub fn add_vt(&self, a: u64, b: u64) -> (r: u64)
        requires
            self.wf(),
            a < self@,
            b < self@,
        ensures
            r == add_mod(a as int, b as int, self@),
            r < self@,
    {
        let s = a + b;
        proof {
            if s >= self.p {
                lemma_fundamental_div_mod_converse(s as int, self.p as int, 1, s - self.p);
            } else {
                lemma_small_mod(s as nat, self.p as nat);
            }
        }
        if s >= self.p {
            s - self.p
        } else {
            s
        }
    }

    /// `a - b mod p`.
    pub fn sub(&self, a: u64, b: u64) -> (r: u64)
        requires
            self.wf(),
            a < self@,
            b < self@,
        ensures
            r == sub_mod(a as int, b as int, self@),
            r < self@,
    {
        proof {
            lemma_mod_add_multiples_vanish(a - b, self.p as int);
        }
        reduce_once(a + self.p - b, self.p)
    }

    /// `a - b mod p`, branching on the operands.
    pub fn sub_vt(&self, a: u64, b: u64) -> (r: u64)
        requires
            self.wf(),
            a < self@,
            b < self@,
        ensures
            r == sub_mod(a as int, b as int, self@),
            r < self@,
    {
        proof {
            if a >= b {
                lemma_small_mod((a - b) as nat, self.p as nat);
            } else {
                lemma_mod_add_multiples_vanish(a - b, self.p as int);
                lemma_small_mod((a + self.p - b) as nat, self.p as nat);
            }
        }
        if a >= b {
            a - b
        } else {
            a + self.p - b
        }
    }

    /// `-a mod p`.
    pub fn neg(&self, a: u64) -> (r: u64)
        requires
            self.wf(),
            a < self@,
        ensures
            r == neg_mod(a as int, self@),
            r < self@,
    {
        proof {
            lemma_mod_add_multiples_vanish(-(a as int), self.p as int);
        }
        reduce_once(self.p - a, self.p)
    }

    /// `-a mod p`, branching on the operand.
    pub fn neg_vt(&self, a: u64) -> (r: u64)
        requires
            self.wf(),
            a < self@,
        ensures
            r == neg_mod(a as int, self@),
            r < self@,
    {
        proof {
            if a == 0 {
                lemma_small_mod(0, self.p as nat);
            } else {
                lemma_mod_add_multiples_vanish(-(a as int), self.p as int);
                lemma_small_mod((self.p - a) as nat, self.p as nat);
            }
        }
        if a == 0 {
            0
        } else {
            self.p - a
        }
    }

    /// `a mod p`.
    pub fn reduce(&self, a: u64) -> (r: u64)
        requires
            self.wf(),
        ensures
            r == a as int % self@,
            r < self@,
    {
        a % self.p
    }

    /// `a mod p` for a double word.
    pub fn reduce_u128(&self, a: u128) -> (r: u64)
        requires
            self.wf(),
        ensures
            r == a as int % self@,
            r < self@,
    {
        (a % (self.p as u128)) as u64
    }

    /// `a * b mod p`.
    pub fn mul(&self, a: u64, b: u64) -> (r: u64)
        requires
            self.wf(),
            a < self@,
            b < self@,
        ensures
            r == mul_mod(a as int, b as int, self@),
            r < self@,
    {
        proof {
            assert(a as int * b as int <= 0x4000_0000_0000_0000 * 0x4000_0000_0000_0000)
                by (nonlinear_arith)
                requires
                    a < 0x4000_0000_0000_0000,
                    b < 0x4000_0000_0000_0000,
            ;
        }
        (((a as u128) * (b as u128)) % (self.p as u128)) as u64
    }

    /// The Shoup companion of `a`, which lets `mul_shoup` multiply by `a`
    /// without a division.
    pub fn shoup(&self, a: u64) -> (r: u64)
        requires
            self.wf(),
            a < self@,
        ensures
            r == shoup_of(a as int, self@),
    {
        proof {
            lemma_shoup_bound(0, a as int, self.p as int);
            assert(a as int * word() < 0x4000_0000_0000_0000 * word()) by (nonlinear_arith)
                requires
                    a < 0x4000_0000_0000_0000,
                    word() > 0,
            ;
        }
        (((a as u128) * 0x1_0000_0000_0000_0000u128) / (self.p as u128)) as u64
    }

    /// `a * b mod p` by Shoup's method: one more multiplication and one
    /// conditional subtraction, given the companion of `b`.
    pub fn mul_shoup(&self, a: u64, b: u64, b_shoup: u64) -> (r: u64)
        requires
            self.wf(),
            a < self@,
            b < self@,
            b_shoup == shoup_of(b as int, self@),
        ensures
            r == mul_mod(a as int, b as int, self@),
            r < self@,
    {
        proof {
            lemma_shoup_bound(a as int, b as int, self.p as int);
            assert(a as int * b_shoup as int <= 0x4000_0000_0000_0000 * word()) by (nonlinear_arith)
                requires
                    0 <= a < 0x4000_0000_0000_0000,
                    0 <= b_shoup < word(),
            ;
            assert(a as int * b as int <= 0x4000_0000_0000_0000 * 0x4000_0000_0000_0000)
                by (nonlinear_arith)
                requires
                    a < 0x4000_0000_0000_0000,
                    b < 0x4000_0000_0000_0000,
            ;
        }
        let q: u128 = ((a as u128) * (b_shoup as u128)) / 0x1_0000_0000_0000_0000u128;
        proof {
            let d = a as int * b as int - q as int * self.p as int;
            assert(q as int * self.p as int <= a as int * b as int);
            lemma_mod_add_multiples_vanish(d - 0, self.p as int);
            lemma_mod_multiples_vanish(q as int, d, self.p as int);
            assert(q as int * self.p as int + d == a as int * b as int);
            assert((a as int * b as int) % (self.p as int) == d % (self.p as int)) by {
                lemma_mul_is_commutative(q as int, self.p as int);
            }
        }
        let d: u64 = ((a as u128) * (b as u128) - q * (self.p as u128)) as u64;
        reduce_once(d, self.p)
    }

    /// `a^e mod p`.
    pub fn pow(&self, a: u64, e: u64) -> (r: u64)
        requires
            self.wf(),
            a < self@,
        ensures
            r == pow_mod(a as int, e as nat, self@),
            r < self@,
    {
        let p = self.p;
        let mut result: u64 = 1;
        let mut base: u64 = a;
        let mut k: u64 = e;
        proof {
            lemma_small_mod(1, p as nat);
            lemma_mul_basics(pow(a as int, e as nat));
        }
        while k > 0
            invariant
                self.wf(),
                p == self@,
                result < p,
                base < p,
                (result as int * pow(base as int, k as nat)) % (p as int) == pow_mod(
                    a as int,
                    e as nat,
                    p as int,
                ),
            decreases k,
        {
            let ghost r0 = result as int;
            let ghost b0 = base as int;
            let ghost k0 = k as nat;
            let ghost pi = p as int;
            if k % 2 == 1 {
                result = self.mul(result, base);
            }
            base = self.mul(base, base);
            k = k / 2;
            proof {
                let h = (k0 / 2) as nat;
                // pow(b0, k0) == pow(b0 * b0, h) * (b0 if k0 is odd)
                lemma_pow_multiplies(b0, 2, h);
                lemma_square_is_pow2(b0);
                assert(pow(b0 * b0, h) == pow(b0, 2 * h));
                lemma_pow_mod_noop(b0 * b0, h, pi);
                assert(pow(base as int, h) % pi == pow(b0, 2 * h) % pi);
                if k0 % 2 == 1 {
                    assert(k0 == 2 * h + 1);
                    lemma_pow_adds(b0, 1, 2 * h);
                    lemma_pow1(b0);
                    assert(pow(b0, k0) == b0 * pow(b0, 2 * h));
                    assert(r0 * pow(b0, k0) == (r0 * b0) * pow(b0, 2 * h)) by {
                        lemma_mul_is_associative(r0, b0, pow(b0, 2 * h));
                    }
                    lemma_mod_twice(r0 * b0, pi);
                    lemma_mul_congruent(
                        result as int,
                        pow(base as int, h),
                        r0 * b0,
                        pow(b0, 2 * h),
                        pi,
                    );
                } else {
                    assert(k0 == 2 * h);
                    lemma_mul_congruent(
                        result as int,
                        pow(base as int, h),
                        r0,
                        pow(b0, 2 * h),
                        pi,
                    );
                }
            }
        }
        proof {
            lemma_pow0(base as int);
            lemma_small_mod(result as nat, p as nat);
        }
        result
    }

    /// The inverse of `a`, computed as `a^(p-2)` and checked; `None` where
    /// that is no inverse of `a`.
    pub fn inv(&self, a: u64) -> (r: Option<u64>)
        requires
            self.wf(),
            a < self@,
        ensures
            r is Some <==> inv_mod(a as int, self@) is Some,
            r matches Some(x) ==> inv_mod(a as int, self@) == Some(x as int) && x < self@,
    {
        let x = self.pow(a, self.p - 2);
        if self.mul(a, x) == 1 {
            Some(x)
        } else {
            None
        }
    }

    /// Adds `b` to `a`, entry by entry.
    pub fn add_vec(&self, a: &mut Vec<u64>, b: &Vec<u64>)
        requires
            self.wf(),
            old(a).len() == b.len(),
            is_reduced(old(a)@, self@),
            is_reduced(b@, self@),
        ensures
            final(a)@ == add_seq(old(a)@, b@, self@),
            is_reduced(final(a)@, self@),
    {
        let n = a.len();
        let mut i: usize = 0;
        while i < n
            invariant
                self.wf(),
                i <= n,
                n == a.len(),
                n == b.len(),
                n == old(a).len(),
                is_reduced(b@, self@),
                forall|j: int| 0 <= j < i ==> a@[j] == add_seq(old(a)@, b@, self@)[j],
                forall|j: int| i <= j < n ==> a@[j] == old(a)@[j],
                forall|j: int| 0 <= j < n ==> (#[trigger] a@[j]) < self@,
            decreases n - i,
        {
            let v = self.add(a[i], b[i]);
            a.set(i, v);
            i += 1;
        }
        assert(a@ =~= add_seq(old(a)@, b@, self@));
    }

    /// Adds `b` to `a`, entry by entry, branching on the entries.
    pub fn add_vec_vt(&self, a: &mut Vec<u64>, b: &Vec<u64>)
        requires
            self.wf(),
            old(a).len() == b.len(),
            is_reduced(old(a)@, self@),
            is_reduced(b@, self@),
        ensures
            final(a)@ == add_seq(old(a)@, b@, self@),
            is_reduced(final(a)@, self@),
    {
        let n = a.len();
        let mut i: usize = 0;
        while i < n
            invariant
                self.wf(),
                i <= n,
                n == a.len(),
                n == b.len(),
                n == old(a).len(),
                is_reduced(b@, self@),
                forall|j: int| 0 <= j < i ==> a@[j] == add_seq(old(a)@, b@, self@)[j],
                forall|j: int| i <= j < n ==> a@[j] == old(a)@[j],
                forall|j: int| 0 <= j < n ==> (#[trigger] a@[j]) < self@,
            decreases n - i,
        {
            let v = self.add_vt(a[i], b[i]);
            a.set(i, v);
            i += 1;
        }
        assert(a@ =~= add_seq(old(a)@, b@, self@));
    }

    /// Subtracts `b` from `a`, entry by entry.
    pub fn sub_vec(&self, a: &mut Vec<u64>, b: &Vec<u64>)
        requires
            self.wf(),
            old(a).len() == b.len(),
            is_reduced(old(a)@, self@),
            is_reduced(b@, self@),
        ensures
            final(a)@ == sub_seq(old(a)@, b@, self@),
            is_reduced(final(a)@, self@),
    {
        let n = a.len();
        let mut i: usize = 0;
        while i < n
            invariant
                self.wf(),
                i <= n,
                n == a.len(),
                n == b.len(),
                n == old(a).len(),
                is_reduced(b@, self@),
                forall|j: int| 0 <= j < i ==> a@[j] == sub_seq(old(a)@, b@, self@)[j],
                forall|j: int| i <= j < n ==> a@[j] == old(a)@[j],
                forall|j: int| 0 <= j < n ==> (#[trigger] a@[j]) < self@,
            decreases n - i,
        {
            let v = self.sub(a[i], b[i]);
            a.set(i, v);
            i += 1;
        }
        assert(a@ =~= sub_seq(old(a)@, b@, self@));
    }

    /// Subtracts `b` from `a`, entry by entry, branching on the entries.
    pub fn sub_vec_vt(&self, a: &mut Vec<u64>, b: &Vec<u64>)
        requires
            self.wf(),
            old(a).len() == b.len(),
            is_reduced(old(a)@, self@),
            is_reduced(b@, self@),
        ensures
            final(a)@ == sub_seq(old(a)@, b@, self@),
            is_reduced(final(a)@, self@),
    {
        let n = a.len();
        let mut i: usize = 0;
        while i < n
            invariant
                self.wf(),
                i <= n,
                n == a.len(),
                n == b.len(),
                n == old(a).len(),
                is_reduced(b@, self@),
                forall|j: int| 0 <= j < i ==> a@[j] == sub_seq(old(a)@, b@, self@)[j],
                forall|j: int| i <= j < n ==> a@[j] == old(a)@[j],
                forall|j: int| 0 <= j < n ==> (#[trigger] a@[j]) < self@,
            decreases n - i,
        {
            let v = self.sub_vt(a[i], b[i]);
            a.set(i, v);
            i += 1;
        }
        assert(a@ =~= sub_seq(old(a)@, b@, self@));
    }

    /// Replaces every entry of `a` by its opposite.
    pub fn neg_vec(&self, a: &mut Vec<u64>)
        requires
            self.wf(),
            is_reduced(old(a)@, self@),
        ensures
            final(a)@ == neg_seq(old(a)@, self@),
            is_reduced(final(a)@, self@),
    {
        let n = a.len();
        let mut i: usize = 0;
        while i < n
            invariant
                self.wf(),
                i <= n,
                n == a.len(),
                n == old(a).len(),
                forall|j: int| 0 <= j < i ==> a@[j] == neg_seq(old(a)@, self@)[j],
                forall|j: int| i <= j < n ==> a@[j] == old(a)@[j],
                forall|j: int| 0 <= j < n ==> (#[trigger] a@[j]) < self@,
            decreases n - i,
        {
            let v = self.neg(a[i]);
            a.set(i, v);
            i += 1;
        }
        assert(a@ =~= neg_seq(old(a)@, self@));
    }

    /// Replaces every entry of `a` by its opposite, branching on the entries.
    pub fn neg_vec_vt(&self, a: &mut Vec<u64>)
        requires
            self.wf(),
            is_reduced(old(a)@, self@),
        ensures
            final(a)@ == neg_seq(old(a)@, self@),
            is_reduced(final(a)@, self@),
    {
        let n = a.len();
        let mut i: usize = 0;
        while i < n
            invariant
                self.wf(),
                i <= n,
                n == a.len(),
                n == old(a).len(),
                forall|j: int| 0 <= j < i ==> a@[j] == neg_seq(old(a)@, self@)[j],
                forall|j: int| i <= j < n ==> a@[j] == old(a)@[j],
                forall|j: int| 0 <= j < n ==> (#[trigger] a@[j]) < self@,
            decreases n - i,
        {
            let v = self.neg_vt(a[i]);
            a.set(i, v);
            i += 1;
        }
        assert(a@ =~= neg_seq(old(a)@, self@));
    }

    /// Multiplies `a` by `b`, entry by entry.
    pub fn mul_vec(&self, a: &mut Vec<u64>, b: &Vec<u64>)
        requires
            self.wf(),
            old(a).len() == b.len(),
            is_reduced(old(a)@, self@),
            is_reduced(b@, self@),
        ensures
            final(a)@ == mul_seq(old(a)@, b@, self@),
            is_reduced(final(a)@, self@),
    {
        let n = a.len();
        let mut i: usize = 0;
        while i < n
            invariant
                self.wf(),
                i <= n,
                n == a.len(),
                n == b.len(),
                n == old(a).len(),
                is_reduced(b@, self@),
                forall|j: int| 0 <= j < i ==> a@[j] == mul_seq(old(a)@, b@, self@)[j],
                forall|j: int| i <= j < n ==> a@[j] == old(a)@[j],
                forall|j: int| 0 <= j < n ==> (#[trigger] a@[j]) < self@,
            decreases n - i,
        {
            let v = self.mul(a[i], b[i]);
            a.set(i, v);
            i += 1;
        }
        assert(a@ =~= mul_seq(old(a)@, b@, self@));
    }

    /// Multiplies `a` by `b`, entry by entry, by Shoup's method.
    pub fn mul_shoup_vec(&self, a: &mut Vec<u64>, b: &Vec<u64>, b_shoup: &Vec<u64>)
        requires
            self.wf(),
            old(a).len() == b.len(),
            is_reduced(old(a)@, self@),
            is_reduced(b@, self@),
            b_shoup@ == shoup_seq(b@, self@),
        ensures
            final(a)@ == mul_seq(old(a)@, b@, self@),
            is_reduced(final(a)@, self@),
    {
        let n = a.len();
        let mut i: usize = 0;
        while i < n
            invariant
                self.wf(),
                i <= n,
                n == a.len(),
                n == b.len(),
                n == old(a).len(),
                is_reduced(b@, self@),
                b_shoup@ == shoup_seq(b@, self@),
                forall|j: int| 0 <= j < i ==> a@[j] == mul_seq(old(a)@, b@, self@)[j],
                forall|j: int| i <= j < n ==> a@[j] == old(a)@[j],
                forall|j: int| 0 <= j < n ==> (#[trigger] a@[j]) < self@,
            decreases n - i,
        {
            proof {
                lemma_shoup_bound(0, b@[i as int] as int, self@);
            }
            let v = self.mul_shoup(a[i], b[i], b_shoup[i]);
            a.set(i, v);
            i += 1;
        }
        assert(a@ =~= mul_seq(old(a)@, b@, self@));
    }

    /// Multiplies every entry of `a` by the residue `s`.
    pub fn scalar_mul_vec(&self, a: &mut Vec<u64>, s: u64)
        requires
            self.wf(),
            s < self@,
            is_reduced(old(a)@, self@),
        ensures
            final(a)@ == scale_seq(old(a)@, s as int, self@),
            is_reduced(final(a)@, self@),
    {
        let n = a.len();
        let mut i: usize = 0;
        while i < n
            invariant
                self.wf(),
                s < self@,
                i <= n,
                n == a.len(),
                n == old(a).len(),
                forall|j: int| 0 <= j < i ==> a@[j] == scale_seq(old(a)@, s as int, self@)[j],
                forall|j: int| i <= j < n ==> a@[j] == old(a)@[j],
                forall|j: int| 0 <= j < n ==> (#[trigger] a@[j]) < self@,
            decreases n - i,
        {
            let v = self.mul(a[i], s);
            a.set(i, v);
            i += 1;
        }
        assert(a@ =~= scale_seq(old(a)@, s as int, self@));
    }

    /// Reduces every entry of `a`.
    pub fn reduce_vec(&self, a: &mut Vec<u64>)
        requires
            self.wf(),
        ensures
            final(a)@ == reduce_seq(old(a)@, self@),
            is_reduced(final(a)@, self@),
    {
        let n = a.len();
        let mut i: usize = 0;
        while i < n
            invariant
                self.wf(),
                i <= n,
                n == a.len(),
                n == old(a).len(),
                forall|j: int| 0 <= j < i ==> a@[j] == reduce_seq(old(a)@, self@)[j],
                forall|j: int| i <= j < n ==> a@[j] == old(a)@[j],
                forall|j: int| 0 <= j < i ==> (#[trigger] a@[j]) < self@,
            decreases n - i,
        {
            let v = self.reduce(a[i]);
            a.set(i, v);
            i += 1;
        }
        assert(a@ =~= reduce_seq(old(a)@, self@));
    }

    /// The Shoup companions of the entries of `a`.
    pub fn shoup_vec(&self, a: &Vec<u64>) -> (r: Vec<u64>)
        requires
            self.wf(),
            is_reduced(a@, self@),
        ensures
            r@ == shoup_seq(a@, self@),
    {
        let n = a.len();
        let mut r: Vec<u64> = Vec::with_capacity(n);
        let mut i: usize = 0;
        while i < n
            invariant
                self.wf(),
                i <= n,
                n == a.len(),
                r.len() == i,
                is_reduced(a@, self@),
                forall|j: int| 0 <= j < i ==> r@[j] == shoup_seq(a@, self@)[j],
            decreases n - i,
        {
            r.push(self.shoup(a[i]));
            i += 1;
        }
        assert(r@ =~= shoup_seq(a@, self@));
        r
    }
}

} // verus!
