//! Natural numbers of any size, as far as exact rounding needs
//! them.
use vstd::arithmetic::power2::*;
use vstd::prelude::*;

verus! {

/// The number whose base-`2^32` digits are `s`, least significant first.
pub open spec fn limbs_value(s: Seq<u32>) -> nat
    decreases s.len(),
{
    if s.len() == 0 {
        0
    } else {
        s[0] as nat + 0x1_0000_0000 * limbs_value(s.skip(1))
    }
}

/// `2^(32 n)`.
pub open spec fn place(n: nat) -> nat {
    pow2(32 * n)
}

pub proof fn lemma_place(n: nat)
    ensures
        place(0) == 1,
        place(n) > 0,
        place(n + 1) == 0x1_0000_0000 * place(n),
{
    lemma2_to64();
    lemma_pow2_pos(32 * n);
    lemma_pow2_adds(32, 32 * n);
}

/// Digits split at a place.
pub proof fn lemma_limbs_concat(a: Seq<u32>, b: Seq<u32>)
    ensures
        limbs_value(a + b) == limbs_value(a) + place(a.len()) * limbs_value(b),
    decreases a.len(),
{
    if a.len() == 0 {
        lemma_place(0);
        assert(a + b =~= b);
        assert(1 * limbs_value(b) == limbs_value(b));
    } else {
        lemma_limbs_concat(a.skip(1), b);
        assert((a + b).skip(1) =~= a.skip(1) + b);
        lemma_place((a.len() - 1) as nat);
        let p = place((a.len() - 1) as nat);
        let v = limbs_value(b);
        assert(0x1_0000_0000 * (p * v) == (0x1_0000_0000 * p) * v) by (nonlinear_arith);
    }
}

pub proof fn lemma_limbs_push(a: Seq<u32>, x: u32)
    ensures
        limbs_value(a.push(x)) == limbs_value(a) + place(a.len()) * x,
{
    lemma_limbs_concat(a, seq![x]);
    assert(a + seq![x] =~= a.push(x));
    assert(seq![x].skip(1) =~= seq![]);
    assert(limbs_value(seq![x]) == x) by {
        assert(limbs_value(seq![x].skip(1)) == 0);
    }
}

pub proof fn lemma_limbs_bound(a: Seq<u32>)
    ensures
        limbs_value(a) < place(a.len()),
    decreases a.len(),
{
    lemma_place(0);
    if a.len() > 0 {
        lemma_limbs_bound(a.skip(1));
        lemma_place((a.len() - 1) as nat);
    }
}

pub proof fn lemma_limbs_zeros(n: nat)
    ensures
        limbs_value(Seq::new(n, |i: int| 0u32)) == 0,
    decreases n,
{
    let z = Seq::new(n, |i: int| 0u32);
    if n > 0 {
        assert(z.skip(1) =~= Seq::new((n - 1) as nat, |i: int| 0u32));
        lemma_limbs_zeros((n - 1) as nat);
    }
}

/// How one number compares to another.
#[derive(Debug, Clone, Copy, PartialEq, Eq, Structural)]
pub enum Relation {
    Below,
    Same,
    Above,
}

pub open spec fn relation(x: nat, y: nat) -> Relation {
    if x < y {
        Relation::Below
    } else if x == y {
        Relation::Same
    } else {
        Relation::Above
    }
}

/// A natural number.
pub struct Natural {
    limbs: Vec<u32>,
}

impl View for Natural {
    type V = nat;

    closed spec fn view(&self) -> nat {
        limbs_value(self.limbs@)
    }
}

impl Natural {
    pub fn from_u64(n: u64) -> (r: Natural)
        ensures
            r@ == n,
    {
        let mut limbs: Vec<u32> = Vec::new();
        limbs.push((n % 0x1_0000_0000) as u32);
        limbs.push((n / 0x1_0000_0000) as u32);
        proof {
            let e = Seq::<u32>::empty();
            let x = (n % 0x1_0000_0000) as u32;
            let y = (n / 0x1_0000_0000) as u32;
            assert(limbs@ =~= e.push(x).push(y));
            lemma_limbs_push(e, x);
            lemma_limbs_push(e.push(x), y);
            lemma_place(0);
            lemma_place(1);
            assert(place(1) == 0x1_0000_0000);
            assert(limbs_value(e) == 0);
            assert(place(0) * x == x) by (nonlinear_arith)
                requires
                    place(0) == 1,
            ;
            assert(place(1) * y == 0x1_0000_0000 * y) by (nonlinear_arith)
                requires
                    place(1) == 0x1_0000_0000,
            ;
        }
        Natural { limbs }
    }

    /// `self * m + a`.
    pub fn times_plus(&self, m: u32, a: u32) -> (r: Natural)
        ensures
            r@ == self@ * m + a,
    {
        let mut out: Vec<u32> = Vec::new();
        let mut carry: u64 = a as u64;
        let mut i: usize = 0;
        proof {
            lemma_place(0);
            assert(self.limbs@.take(0) =~= seq![]);
            assert(out@ =~= seq![]);
            assert(0 * m == 0);
            assert(place(0) * carry == carry);
        }
        while i < self.limbs.len()
            invariant
                i <= self.limbs@.len(),
                out@.len() == i,
                carry <= 0xFFFF_FFFF,
                limbs_value(out@) + place(i as nat) * carry == limbs_value(
                    self.limbs@.take(i as int),
                ) * m + a,
            decreases self.limbs@.len() - i,
        {
            let x: u32 = self.limbs[i];
            assert(x * m <= 0xFFFF_FFFF * 0xFFFF_FFFF) by (nonlinear_arith)
                requires
                    x <= 0xFFFF_FFFF,
                    m <= 0xFFFF_FFFF,
            ;
            let t: u64 = (x as u64) * (m as u64) + carry;
            let low: u32 = (t % 0x1_0000_0000) as u32;
            let high: u64 = t / 0x1_0000_0000;
            let ghost before = out@;
            out.push(low);
            proof {
                let p = place(i as nat);
                lemma_place(i as nat);
                lemma_limbs_push(before, low);
                assert(self.limbs@.take(i + 1) =~= self.limbs@.take(i as int).push(x));
                lemma_limbs_push(self.limbs@.take(i as int), x);
                let v = limbs_value(self.limbs@.take(i as int));
                let o = limbs_value(before);
                assert(o + p * low + (0x1_0000_0000 * p) * high == (v + p * x) * m + a)
                    by (nonlinear_arith)
                    requires
                        o + p * carry == v * m + a,
                        t == x * m + carry,
                        t == 0x1_0000_0000 * high + low,
                ;
            }
            carry = high;
            i = i + 1;
        }
        assert(self.limbs@.take(self.limbs@.len() as int) =~= self.limbs@);
        let ghost before = out@;
        out.push(carry as u32);
        proof {
            lemma_limbs_push(before, carry as u32);
        }
        Natural { limbs: out }
    }

    /// `self * 2^k`.
    pub fn shifted(&self, k: usize) -> (r: Natural)
        ensures
            r@ == self@ * pow2(k as nat),
    {
        let words: usize = k / 32;
        let bits: usize = k % 32;
        let mut limbs: Vec<u32> = Vec::new();
        let mut i: usize = 0;
        while i < words
            invariant
                i <= words,
                limbs@ == Seq::new(i as nat, |j: int| 0u32),
            decreases words - i,
        {
            limbs.push(0);
            i = i + 1;
            assert(limbs@ =~= Seq::new(i as nat, |j: int| 0u32));
        }
        limbs.extend_from_slice(self.limbs.as_slice());
        proof {
            let z = Seq::new(words as nat, |j: int| 0u32);
            assert(limbs@ =~= z + self.limbs@);
            lemma_limbs_zeros(words as nat);
            lemma_limbs_concat(z, self.limbs@);
        }
        let moved = Natural { limbs };
        proof {
            vstd::arithmetic::power2::lemma2_to64();
            vstd::bits::lemma_u64_shl_is_mul(1, bits as u64);
            if bits < 31 {
                lemma_pow2_strictly_increases(bits as nat, 31);
            }
            assert(1 * pow2(bits as nat) == pow2(bits as nat));
        }
        let m: u32 = (1u64 << (bits as u64)) as u32;
        let r = moved.times_plus(m, 0);
        proof {
            lemma_pow2_adds((32 * words) as nat, bits as nat);
            let (p, q) = (pow2((32 * words) as nat), pow2(bits as nat));
            let v = self@;
            assert((p * v) * q == v * (p * q)) by (nonlinear_arith);
        }
        r
    }

    /// `self * m`.
    pub fn times(&self, m: u64) -> (r: Natural)
        ensures
            r@ == self@ * m,
    {
        let high: u32 = (m / 0x1_0000_0000) as u32;
        let low: u32 = (m % 0x1_0000_0000) as u32;
        let h = self.times_plus(high, 0).shifted(32);
        let l = self.times_plus(low, 0);
        let r = h.plus(&l);
        proof {
            lemma2_to64();
            let v = self@;
            assert((v * high) * 0x1_0000_0000 + v * low == v * m) by (nonlinear_arith)
                requires
                    m == 0x1_0000_0000 * high + low,
            ;
        }
        r
    }

    fn limb(&self, i: usize) -> (r: u32)
        ensures
            r == (if i < self.limbs@.len() {
                self.limbs@[i as int]
            } else {
                0
            }),
    {
        if i < self.limbs.len() {
            self.limbs[i]
        } else {
            0
        }
    }

    /// The digits of `self`, padded to `n`.
    closed spec fn padded(&self, n: nat) -> Seq<u32> {
        Seq::new(
            n,
            |i: int|
                if i < self.limbs@.len() {
                    self.limbs@[i]
                } else {
                    0
                },
        )
    }

    proof fn lemma_padded(&self, n: nat)
        requires
            n >= self.limbs@.len(),
        ensures
            limbs_value(self.padded(n)) == self@,
    {
        let k = self.limbs@.len();
        let z = Seq::new((n - k) as nat, |i: int| 0u32);
        assert(self.padded(n) =~= self.limbs@ + z);
        lemma_limbs_concat(self.limbs@, z);
        lemma_limbs_zeros((n - k) as nat);
        assert(place(k) * 0 == 0);
    }

    pub fn plus(&self, other: &Natural) -> (r: Natural)
        ensures
            r@ == self@ + other@,
    {
        let n: usize = if self.limbs.len() >= other.limbs.len() {
            self.limbs.len()
        } else {
            other.limbs.len()
        };
        let mut out: Vec<u32> = Vec::new();
        let mut carry: u64 = 0;
        let mut i: usize = 0;
        let ghost a = self.padded(n as nat);
        let ghost b = other.padded(n as nat);
        proof {
            assert(a.take(0) =~= seq![]);
            assert(b.take(0) =~= seq![]);
            assert(out@ =~= seq![]);
            assert(place(0) * carry == 0);
        }
        while i < n
            invariant
                i <= n,
                a == self.padded(n as nat),
                b == other.padded(n as nat),
                out@.len() == i,
                carry <= 1,
                limbs_value(out@) + place(i as nat) * carry == limbs_value(a.take(i as int))
                    + limbs_value(b.take(i as int)),
            decreases n - i,
        {
            let x: u32 = self.limb(i);
            let y: u32 = other.limb(i);
            let t: u64 = x as u64 + y as u64 + carry;
            let low: u32 = (t % 0x1_0000_0000) as u32;
            let high: u64 = t / 0x1_0000_0000;
            let ghost before = out@;
            out.push(low);
            proof {
                let p = place(i as nat);
                lemma_place(i as nat);
                lemma_limbs_push(before, low);
                assert(a.take(i + 1) =~= a.take(i as int).push(x));
                assert(b.take(i + 1) =~= b.take(i as int).push(y));
                lemma_limbs_push(a.take(i as int), x);
                lemma_limbs_push(b.take(i as int), y);
                let o = limbs_value(before);
                let va = limbs_value(a.take(i as int));
                let vb = limbs_value(b.take(i as int));
                assert(o + p * low + (0x1_0000_0000 * p) * high == (va + p * x) + (vb + p * y))
                    by (nonlinear_arith)
                    requires
                        o + p * carry == va + vb,
                        t == x + y + carry,
                        t == 0x1_0000_0000 * high + low,
                ;
            }
            carry = high;
            i = i + 1;
        }
        proof {
            assert(a.take(n as int) =~= a);
            assert(b.take(n as int) =~= b);
            self.lemma_padded(n as nat);
            other.lemma_padded(n as nat);
            lemma_limbs_push(out@, carry as u32);
        }
        out.push(carry as u32);
        Natural { limbs: out }
    }

    pub fn minus(&self, other: &Natural) -> (r: Natural)
        requires
            other@ <= self@,
        ensures
            r@ == self@ - other@,
    {
        let n: usize = if self.limbs.len() >= other.limbs.len() {
            self.limbs.len()
        } else {
            other.limbs.len()
        };
        let mut out: Vec<u32> = Vec::new();
        let mut borrow: u64 = 0;
        let mut i: usize = 0;
        let ghost a = self.padded(n as nat);
        let ghost b = other.padded(n as nat);
        proof {
            assert(a.take(0) =~= seq![]);
            assert(b.take(0) =~= seq![]);
            assert(out@ =~= seq![]);
            assert(place(0) * borrow == 0);
        }
        while i < n
            invariant
                i <= n,
                a == self.padded(n as nat),
                b == other.padded(n as nat),
                out@.len() == i,
                borrow <= 1,
                limbs_value(a.take(i as int)) + place(i as nat) * borrow == limbs_value(out@)
                    + limbs_value(b.take(i as int)),
            decreases n - i,
        {
            let x: u32 = self.limb(i);
            let y: u32 = other.limb(i);
            let t: u64 = 0x1_0000_0000 + x as u64 - y as u64 - borrow;
            let low: u32 = (t % 0x1_0000_0000) as u32;
            let next: u64 = 1 - t / 0x1_0000_0000;
            let ghost before = out@;
            out.push(low);
            proof {
                let p = place(i as nat);
                lemma_place(i as nat);
                lemma_limbs_push(before, low);
                assert(a.take(i + 1) =~= a.take(i as int).push(x));
                assert(b.take(i + 1) =~= b.take(i as int).push(y));
                lemma_limbs_push(a.take(i as int), x);
                lemma_limbs_push(b.take(i as int), y);
                let o = limbs_value(before);
                let va = limbs_value(a.take(i as int));
                let vb = limbs_value(b.take(i as int));
                assert((va + p * x) + (0x1_0000_0000 * p) * next == (o + p * low) + (vb + p * y))
                    by (nonlinear_arith)
                    requires
                        va + p * borrow == o + vb,
                        x + 0x1_0000_0000 * next == low + y + borrow,
                ;
            }
            borrow = next;
            i = i + 1;
        }
        proof {
            assert(a.take(n as int) =~= a);
            assert(b.take(n as int) =~= b);
            self.lemma_padded(n as nat);
            other.lemma_padded(n as nat);
            lemma_limbs_bound(out@);
            let p = place(n as nat);
            assert(borrow == 1 ==> p * borrow == p);
            assert(borrow == 0 ==> p * borrow == 0);
        }
        Natural { limbs: out }
    }

    /// Compares two numbers from their highest digits down.
    pub fn relation_to(&self, other: &Natural) -> (r: Relation)
        ensures
            r == relation(self@, other@),
    {
        let n: usize = if self.limbs.len() >= other.limbs.len() {
            self.limbs.len()
        } else {
            other.limbs.len()
        };
        let ghost a = self.padded(n as nat);
        let ghost b = other.padded(n as nat);
        let mut i: usize = n;
        proof {
            assert(a.take(n as int) =~= a);
            assert(b.take(n as int) =~= b);
            self.lemma_padded(n as nat);
            other.lemma_padded(n as nat);
        }
        while i > 0
            invariant
                i <= n,
                a == self.padded(n as nat),
                b == other.padded(n as nat),
                relation(self@, other@) == relation(
                    limbs_value(a.take(i as int)),
                    limbs_value(b.take(i as int)),
                ),
            decreases i,
        {
            i = i - 1;
            let x: u32 = self.limb(i);
            let y: u32 = other.limb(i);
            proof {
                let p = place(i as nat);
                lemma_place(i as nat);
                let (fa, fb) = (a.take(i as int), b.take(i as int));
                assert(a.take(i + 1) =~= fa.push(x));
                assert(b.take(i + 1) =~= fb.push(y));
                lemma_limbs_push(fa, x);
                lemma_limbs_push(fb, y);
                lemma_limbs_bound(fa);
                lemma_limbs_bound(fb);
                let (va, vb) = (limbs_value(fa), limbs_value(fb));
                if x < y {
                    assert(va + p * x < vb + p * y) by (nonlinear_arith)
                        requires
                            va < p,
                            x + 1 <= y,
                            vb >= 0,
                    ;
                } else if x > y {
                    assert(va + p * x > vb + p * y) by (nonlinear_arith)
                        requires
                            vb < p,
                            y + 1 <= x,
                            va >= 0,
                    ;
                }
            }
            if x < y {
                return Relation::Below;
            }
            if x > y {
                return Relation::Above;
            }
        }
        assert(a.take(0) =~= seq![]);
        assert(b.take(0) =~= seq![]);
        Relation::Same
    }
}

} // verus!
