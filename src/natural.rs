//! Natural numbers of any size, as little-endian 32-bit limbs.

use vstd::prelude::*;

verus! {

/// The weight of limb `k`: `2^(32 k)`.
pub open spec fn place(k: nat) -> nat
    decreases k,
{
    if k == 0 {
        1
    } else {
        place((k - 1) as nat) * 0x1_0000_0000
    }
}

/// Limb `k` of `s`, zero past its end.
pub open spec fn limb(s: Seq<u32>, k: int) -> nat {
    if 0 <= k < s.len() {
        s[k] as nat
    } else {
        0
    }
}

/// The value of the lowest `n` limbs of `s`.
pub open spec fn value_upto(s: Seq<u32>, n: nat) -> nat
    decreases n,
{
    if n == 0 {
        0
    } else {
        value_upto(s, (n - 1) as nat) + limb(s, n - 1) * place((n - 1) as nat)
    }
}

/// The value of all limbs of `s`.
pub open spec fn limbs_value(s: Seq<u32>) -> nat {
    value_upto(s, s.len())
}

proof fn lemma_place_pos(k: nat)
    ensures
        place(k) >= 1,
    decreases k,
{
    if k > 0 {
        lemma_place_pos((k - 1) as nat);
    }
}

proof fn lemma_upto_same(s: Seq<u32>, t: Seq<u32>, n: nat)
    requires
        forall|k: int| 0 <= k < n ==> limb(s, k) == limb(t, k),
    ensures
        value_upto(s, n) == value_upto(t, n),
    decreases n,
{
    if n > 0 {
        lemma_upto_same(s, t, (n - 1) as nat);
    }
}

proof fn lemma_upto_past_end(s: Seq<u32>, n: nat)
    requires
        n >= s.len(),
    ensures
        value_upto(s, n) == limbs_value(s),
    decreases n,
{
    if n > s.len() {
        lemma_upto_past_end(s, (n - 1) as nat);
        assert(limb(s, n - 1) == 0);
    }
}

proof fn lemma_upto_bound(s: Seq<u32>, n: nat)
    ensures
        value_upto(s, n) < place(n),
    decreases n,
{
    if n > 0 {
        let m = (n - 1) as nat;
        lemma_upto_bound(s, m);
        let v = value_upto(s, m);
        let l = limb(s, m as int);
        let p = place(m);
        assert(v + l * p < p * 0x1_0000_0000) by (nonlinear_arith)
            requires
                v < p,
                l <= 0xFFFF_FFFF,
        ;
    }
}

/// Where limbs agree above `j` and `a` has the smaller limb at `j`, `a` is
/// the smaller number.
proof fn lemma_upto_less(a: Seq<u32>, b: Seq<u32>, j: nat, n: nat)
    requires
        j < n,
        limb(a, j as int) < limb(b, j as int),
        forall|k: int| j < k < n ==> limb(a, k) == limb(b, k),
    ensures
        value_upto(a, n) < value_upto(b, n),
    decreases n,
{
    if n == j + 1 {
        lemma_upto_bound(a, j);
        let va = value_upto(a, j);
        let vb = value_upto(b, j);
        let la = limb(a, j as int);
        let lb = limb(b, j as int);
        let p = place(j);
        assert(va + la * p < vb + lb * p) by (nonlinear_arith)
            requires
                va < p,
                la < lb,
                vb >= 0,
        ;
    } else {
        lemma_upto_less(a, b, j, (n - 1) as nat);
    }
}

/// A natural number of any size.
#[derive(Debug)]
pub struct Natural {
    limbs: Vec<u32>,
}

impl View for Natural {
    type V = nat;

    closed spec fn view(&self) -> nat {
        limbs_value(self.limbs@)
    }
}

impl Natural {
    /// The limbs, lowest first: the number is the sum of `limbs[k] * 2^(32 k)`.
    pub fn limbs(&self) -> (r: &[u32])
        ensures
            limbs_value(r@) == self@,
    {
        self.limbs.as_slice()
    }

    pub fn zero() -> (r: Natural)
        ensures
            r@ == 0,
    {
        Natural { limbs: Vec::new() }
    }

    pub fn from_u64(v: u64) -> (r: Natural)
        ensures
            r@ == v,
    {
        Natural::zero().mul_add(0, v)
    }

    /// An equal number.
    pub fn copy(&self) -> (r: Natural)
        ensures
            r@ == self@,
    {
        let mut limbs: Vec<u32> = Vec::new();
        let mut i: usize = 0;
        while i < self.limbs.len()
            invariant
                0 <= i <= self.limbs@.len(),
                limbs@ == self.limbs@.take(i as int),
            decreases self.limbs@.len() - i,
        {
            limbs.push(self.limbs[i]);
            i = i + 1;
            assert(limbs@ =~= self.limbs@.take(i as int));
        }
        assert(limbs@ =~= self.limbs@);
        Natural { limbs }
    }

    /// `self * m + c`.
    pub fn mul_add(&self, m: u64, c: u64) -> (r: Natural)
        ensures
            r@ == self@ * m + c,
    {
        let a = &self.limbs;
        let mut out: Vec<u32> = Vec::new();
        let mut carry: u64 = c;
        let mut i: usize = 0;
        assert(place(0) == 1);
        assert(value_upto(out@, 0) == 0 && value_upto(a@, 0) == 0);
        while i < a.len()
            invariant
                0 <= i <= a@.len(),
                out@.len() == i,
                value_upto(out@, i as nat) + carry * place(i as nat) == value_upto(a@, i as nat) * m
                    + c,
            decreases a@.len() - i,
        {
            let x = a[i];
            assert((x as u128) * (m as u128) + (carry as u128) <= 0xFFFF_FFFF * 0xFFFF_FFFF_FFFF_FFFF
                + 0xFFFF_FFFF_FFFF_FFFF) by (nonlinear_arith)
                requires
                    x <= 0xFFFF_FFFFu32,
                    m <= 0xFFFF_FFFF_FFFF_FFFFu64,
                    carry <= 0xFFFF_FFFF_FFFF_FFFFu64,
            ;
            let t: u128 = (x as u128) * (m as u128) + (carry as u128);
            assert(t / 0x1_0000_0000 <= 0xFFFF_FFFF_FFFF_FFFFu128) by (nonlinear_arith)
                requires
                    t <= 0xFFFF_FFFF * 0xFFFF_FFFF_FFFF_FFFF + 0xFFFF_FFFF_FFFF_FFFF,
            ;
            let lo = (t % 0x1_0000_0000) as u32;
            let hi = (t / 0x1_0000_0000) as u64;
            let ghost old_out = out@;
            out.push(lo);
            proof {
                let n = i as nat;
                lemma_upto_same(out@, old_out, n);
                assert(limb(out@, i as int) == lo as nat);
                assert(limb(a@, i as int) == x as nat);
                let p = place(n);
                let vo = value_upto(old_out, n);
                let va = value_upto(a@, n);
                assert(value_upto(out@, n + 1) == vo + lo * p);
                assert(value_upto(a@, n + 1) == va + x * p);
                assert(place(n + 1) == p * 0x1_0000_0000);
                assert(t == lo + hi * 0x1_0000_0000);
                assert(vo + lo * p + hi * (p * 0x1_0000_0000) == (va + x * p) * m + c) by (nonlinear_arith)
                    requires
                        vo + carry * p == va * m + c,
                        t == x * m + carry,
                        t == lo + hi * 0x1_0000_0000,
                ;
            }
            carry = hi;
            i = i + 1;
        }
        let lo = (carry % 0x1_0000_0000) as u32;
        let hi = (carry / 0x1_0000_0000) as u32;
        let ghost n = i as nat;
        let ghost base_out = out@;
        out.push(lo);
        out.push(hi);
        proof {
            lemma_upto_same(out@, base_out, n);
            assert(limb(out@, n as int) == lo as nat);
            assert(limb(out@, n as int + 1) == hi as nat);
            let p = place(n);
            assert(place(n + 1) == p * 0x1_0000_0000);
            assert(value_upto(out@, n + 1) == value_upto(out@, n) + lo * p);
            assert(value_upto(out@, n + 2) == value_upto(out@, n + 1) + hi * place(n + 1));
            assert(value_upto(out@, n + 2) == value_upto(base_out, n) + lo * p + hi * (p
                * 0x1_0000_0000));
            assert(lo * p + hi * (p * 0x1_0000_0000) == carry * p) by (nonlinear_arith)
                requires
                    carry == lo + hi * 0x1_0000_0000,
            ;
            lemma_upto_past_end(a@, n);
        }
        Natural { limbs: out }
    }

    /// `self + other`.
    pub fn add(&self, other: &Natural) -> (r: Natural)
        ensures
            r@ == self@ + other@,
    {
        let a = &self.limbs;
        let b = &other.limbs;
        let n: usize = if a.len() >= b.len() { a.len() } else { b.len() };
        let mut out: Vec<u32> = Vec::new();
        let mut carry: u64 = 0;
        let mut i: usize = 0;
        assert(value_upto(out@, 0) == 0 && value_upto(a@, 0) == 0 && value_upto(b@, 0) == 0);
        while i < n
            invariant
                0 <= i <= n,
                n == a@.len() || n == b@.len(),
                a@.len() <= n && b@.len() <= n,
                out@.len() == i,
                carry <= 1,
                value_upto(out@, i as nat) + carry * place(i as nat) == value_upto(a@, i as nat)
                    + value_upto(b@, i as nat),
            decreases n - i,
        {
            let x: u64 = if i < a.len() { a[i] as u64 } else { 0 };
            let y: u64 = if i < b.len() { b[i] as u64 } else { 0 };
            let t: u64 = x + y + carry;
            let lo = (t % 0x1_0000_0000) as u32;
            let hi: u64 = t / 0x1_0000_0000;
            let ghost old_out = out@;
            out.push(lo);
            proof {
                let k = i as nat;
                lemma_upto_same(out@, old_out, k);
                assert(limb(out@, i as int) == lo as nat);
                assert(limb(a@, i as int) == x as nat);
                assert(limb(b@, i as int) == y as nat);
                let p = place(k);
                assert(place(k + 1) == p * 0x1_0000_0000);
                let vo = value_upto(old_out, k);
                assert(vo + lo * p + hi * (p * 0x1_0000_0000) == value_upto(a@, k) + x * p
                    + value_upto(b@, k) + y * p) by (nonlinear_arith)
                    requires
                        vo + carry * p == value_upto(a@, k) + value_upto(b@, k),
                        t == x + y + carry,
                        t == lo + hi * 0x1_0000_0000,
                ;
            }
            carry = hi;
            i = i + 1;
        }
        let ghost base_out = out@;
        out.push(carry as u32);
        proof {
            let k = i as nat;
            lemma_upto_same(out@, base_out, k);
            assert(limb(out@, i as int) == carry as nat);
            assert(value_upto(out@, k + 1) == value_upto(out@, k) + carry * place(k));
            lemma_upto_past_end(a@, k);
            lemma_upto_past_end(b@, k);
        }
        Natural { limbs: out }
    }

    /// Whether `self <= other`.
    pub fn le(&self, other: &Natural) -> (r: bool)
        ensures
            r == (self@ <= other@),
    {
        let a = &self.limbs;
        let b = &other.limbs;
        let n: usize = if a.len() >= b.len() { a.len() } else { b.len() };
        let mut i: usize = n;
        while i > 0
            invariant
                0 <= i <= n,
                a@ == self.limbs@,
                b@ == other.limbs@,
                a@.len() <= n && b@.len() <= n,
                forall|k: int| i <= k < n ==> limb(a@, k) == limb(b@, k),
            decreases i,
        {
            let x: u32 = if i - 1 < a.len() { a[i - 1] } else { 0 };
            let y: u32 = if i - 1 < b.len() { b[i - 1] } else { 0 };
            assert(limb(a@, i - 1) == x as nat);
            assert(limb(b@, i - 1) == y as nat);
            if x != y {
                proof {
                    lemma_upto_past_end(a@, n as nat);
                    lemma_upto_past_end(b@, n as nat);
                    let j = (i - 1) as nat;
                    assert(forall|k: int| j < k < n ==> limb(a@, k) == limb(b@, k));
                    assert(forall|k: int| j < k < n ==> limb(b@, k) == limb(a@, k));
                    if x < y {
                        lemma_upto_less(a@, b@, j, n as nat);
                        assert(self@ < other@);
                    } else {
                        lemma_upto_less(b@, a@, j, n as nat);
                        assert(other@ < self@);
                    }
                }
                return x < y;
            }
            i = i - 1;
        }
        proof {
            lemma_upto_same(a@, b@, n as nat);
            lemma_upto_past_end(a@, n as nat);
            lemma_upto_past_end(b@, n as nat);
        }
        true
    }
}

} // verus!
