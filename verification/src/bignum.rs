//! Arbitrary-size natural numbers, just large enough to compare naive Bayes
//! scores exactly.
//!
//! A score is a product of word counts, so it can exceed any machine word.
//! `BigNat` supports exactly what score comparison needs: start from a count,
//! multiply by counts, test for zero, and compare.

use vstd::prelude::*;

verus! {

use vstd::arithmetic::div_mod::lemma_fundamental_div_mod;
use vstd::arithmetic::div_mod::lemma_div_is_ordered;
use vstd::arithmetic::div_mod::lemma_div_by_multiple;

/// The limb base, 2^64.
pub open spec fn b64() -> int {
    0x10000000000000000
}

/// b64() to the power `n`.
pub open spec fn pow64(n: nat) -> int
    decreases n,
{
    if n == 0 {
        1
    } else {
        b64() * pow64((n - 1) as nat)
    }
}

/// The natural number denoted by little-endian base-2^64 limbs.
pub open spec fn val_of(s: Seq<u64>) -> nat
    decreases s.len(),
{
    if s.len() == 0 {
        0
    } else {
        (s[0] + b64() * val_of(s.drop_first())) as nat
    }
}

/// Appending a limb adds its value at the next power of the base.
pub proof fn lemma_val_push(s: Seq<u64>, x: u64)
    ensures
        val_of(s.push(x)) == val_of(s) + x * pow64(s.len()),
    decreases s.len(),
{
    if s.len() == 0 {
        assert(s.push(x).drop_first() =~= Seq::<u64>::empty());
        assert(s.push(x)[0] == x);
        assert(x * 1 == x) by (nonlinear_arith);
        assert(s =~= Seq::<u64>::empty());
    } else {
        let t = s.drop_first();
        lemma_val_push(t, x);
        assert(s.push(x).drop_first() =~= t.push(x));
        assert(s.push(x)[0] == s[0]);
        let p = pow64(t.len());
        assert(b64() * (val_of(t) + x * p) == b64() * val_of(t) + x * (b64() * p))
            by (nonlinear_arith);
        assert(pow64(s.len()) == b64() * p);
    }
}

/// A number is zero exactly when all its limbs are zero.
pub proof fn lemma_val_zero(s: Seq<u64>)
    ensures
        (val_of(s) == 0) <==> (forall|k: int| 0 <= k < s.len() ==> s[k] == 0),
    decreases s.len(),
{
    if s.len() > 0 {
        let t = s.drop_first();
        lemma_val_zero(t);
        assert(val_of(t) >= 0);
        assert(b64() * val_of(t) >= 0 && (val_of(t) > 0 ==> b64() * val_of(t) > 0))
            by (nonlinear_arith);
        assert(forall|k: int| 0 <= k < t.len() ==> t[k] == s[k + 1]);
        if val_of(s) == 0 {
            assert(s[0] == 0);
            assert(val_of(t) == 0);
            assert(forall|k: int| 1 <= k < s.len() ==> s[k] == t[k - 1]);
        }
    }
}

/// Tracks one limb step of multiplying by `m` with a carry.
proof fn lemma_mul_step(
    vr: int,
    vr2: int,
    vt: int,
    vt2: int,
    ai: int,
    m: int,
    carry: int,
    hi: int,
    lo: int,
    p: int,
    b: int,
)
    by (nonlinear_arith)
    requires
        vr + carry * p == vt * m,
        ai * m + carry == b * hi + lo,
        vr2 == vr + lo * p,
        vt2 == vt + ai * p,
    ensures
        vr2 + hi * (b * p) == vt2 * m,
{
}

/// Equal-length limb sequences compare by their highest differing limb.
proof fn lemma_val_lt(s1: Seq<u64>, s2: Seq<u64>, k: int)
    requires
        s1.len() == s2.len(),
        0 <= k < s1.len(),
        s1[k] < s2[k],
        forall|j: int| k < j < s1.len() ==> s1[j] == s2[j],
    ensures
        val_of(s1) < val_of(s2),
    decreases s1.len(),
{
    let t1 = s1.drop_first();
    let t2 = s2.drop_first();
    assert(forall|j: int| 0 <= j < t1.len() ==> t1[j] == s1[j + 1] && t2[j] == s2[j + 1]);
    if k == 0 {
        assert(t1 =~= t2);
        assert(val_of(s1) == s1[0] + b64() * val_of(t1));
        assert(val_of(s2) == s2[0] + b64() * val_of(t1));
    } else {
        lemma_val_lt(t1, t2, k - 1);
        assert(s1[0] < b64());
        assert(s1[0] + b64() * val_of(t1) < s2[0] + b64() * val_of(t2)) by (nonlinear_arith)
            requires
                val_of(t1) < val_of(t2),
                0 <= s1[0] < b64(),
                0 <= s2[0],
        ;
    }
}

/// A natural number of unbounded size.
pub struct BigNat {
    pub limbs: Vec<u64>,
}

impl BigNat {
    /// The number this value denotes.
    pub open spec fn val(&self) -> nat {
        val_of(self.limbs@)
    }

    /// The number `x`.
    pub fn from_u64(x: u64) -> (r: BigNat)
        ensures
            r.val() == x,
    {
        let mut limbs: Vec<u64> = Vec::new();
        limbs.push(x);
        proof {
            assert(limbs@.drop_first() =~= Seq::<u64>::empty());
            assert(val_of(Seq::<u64>::empty()) == 0);
            assert(b64() * 0 == 0) by (nonlinear_arith);
        }
        BigNat { limbs }
    }

    /// This number times `m`.
    pub fn times(&self, m: u64) -> (r: BigNat)
        ensures
            r.val() == self.val() * m,
    {
        let a = &self.limbs;
        let n = a.len();
        let mut r: Vec<u64> = Vec::new();
        let mut carry: u64 = 0;
        let mut i: usize = 0;
        proof {
            assert(a@.take(0) =~= Seq::<u64>::empty());
            assert(0 + 0 * pow64(0) == 0 * (m as int)) by (nonlinear_arith);
        }
        while i < n
            invariant
                i <= n,
                n == a@.len(),
                r@.len() == i,
                val_of(r@) + carry * pow64(i as nat) == val_of(a@.take(i as int)) * m,
            decreases n - i,
        {
            let ai = a[i];
            proof {
                assert((ai as int) * (m as int) <= (b64() - 1) * (b64() - 1)) by (nonlinear_arith)
                    requires
                        0 <= ai as int <= b64() - 1,
                        0 <= m as int <= b64() - 1,
                ;
            }
            let acc: u128 = (ai as u128) * (m as u128) + (carry as u128);
            let lo: u64 = (acc % 0x10000000000000000u128) as u64;
            let hi: u64 = (acc / 0x10000000000000000u128) as u64;
            let ghost old_r = r@;
            let ghost old_carry = carry;
            r.push(lo);
            carry = hi;
            proof {
                lemma_fundamental_div_mod(acc as int, b64());
                assert(acc as int <= (b64() - 1) * b64()) by (nonlinear_arith)
                    requires
                        acc as int <= (b64() - 1) * (b64() - 1) + (b64() - 1),
                ;
                lemma_div_is_ordered(acc as int, (b64() - 1) * b64(), b64());
                lemma_div_by_multiple(b64() - 1, b64());
                assert(hi as int == acc as int / b64());
                lemma_val_push(old_r, lo);
                lemma_val_push(a@.take(i as int), a@[i as int]);
                assert(a@.take(i as int).push(a@[i as int]) =~= a@.take(i as int + 1));
                lemma_mul_step(
                    val_of(old_r) as int,
                    val_of(r@) as int,
                    val_of(a@.take(i as int)) as int,
                    val_of(a@.take(i as int + 1)) as int,
                    ai as int,
                    m as int,
                    old_carry as int,
                    hi as int,
                    lo as int,
                    pow64(i as nat),
                    b64(),
                );
                assert(pow64((i + 1) as nat) == b64() * pow64(i as nat));
            }
            i = i + 1;
        }
        proof {
            assert(a@.take(n as int) =~= a@);
        }
        if carry > 0 {
            let ghost old_r = r@;
            r.push(carry);
            proof {
                lemma_val_push(old_r, carry);
            }
        } else {
            proof {
                assert(0 * pow64(n as nat) == 0) by (nonlinear_arith);
            }
        }
        BigNat { limbs: r }
    }

    /// Whether this number is zero.
    pub fn is_zero(&self) -> (r: bool)
        ensures
            r == (self.val() == 0),
    {
        let n = self.limbs.len();
        let mut i: usize = 0;
        while i < n
            invariant
                i <= n,
                n == self.limbs@.len(),
                forall|k: int| 0 <= k < i ==> self.limbs@[k] == 0,
            decreases n - i,
        {
            if self.limbs[i] != 0 {
                proof {
                    lemma_val_zero(self.limbs@);
                }
                return false;
            }
            i = i + 1;
        }
        proof {
            lemma_val_zero(self.limbs@);
        }
        true
    }

    /// Whether this number is strictly less than `other`.
    pub fn lt(&self, other: &BigNat) -> (r: bool)
        ensures
            r == (self.val() < other.val()),
    {
        let n = if self.limbs.len() < other.limbs.len() {
            other.limbs.len()
        } else {
            self.limbs.len()
        };
        let aa = pad_to(&self.limbs, n);
        let bb = pad_to(&other.limbs, n);
        let mut k = n;
        while k > 0
            invariant
                k <= n,
                aa@.len() == n,
                bb@.len() == n,
                val_of(aa@) == self.val(),
                val_of(bb@) == other.val(),
                forall|j: int| k <= j < n ==> aa@[j] == bb@[j],
            decreases k,
        {
            k = k - 1;
            let la = aa[k];
            let lb = bb[k];
            if la < lb {
                proof {
                    lemma_val_lt(aa@, bb@, k as int);
                }
                return true;
            }
            if la > lb {
                proof {
                    lemma_val_lt(bb@, aa@, k as int);
                }
                return false;
            }
        }
        proof {
            assert(aa@ =~= bb@);
        }
        false
    }
}

/// A copy of `a` zero-extended to `n` limbs, denoting the same number.
pub fn pad_to(a: &Vec<u64>, n: usize) -> (r: Vec<u64>)
    requires
        a@.len() <= n,
    ensures
        r@.len() == n,
        val_of(r@) == val_of(a@),
        forall|j: int| 0 <= j < a@.len() ==> r@[j] == a@[j],
        forall|j: int| a@.len() <= j < n ==> r@[j] == 0,
{
    let mut r: Vec<u64> = Vec::new();
    let mut i: usize = 0;
    while i < a.len()
        invariant
            i <= a@.len(),
            r@ == a@.take(i as int),
        decreases a@.len() - i,
    {
        r.push(a[i]);
        proof {
            assert(a@.take(i as int).push(a@[i as int]) =~= a@.take(i as int + 1));
        }
        i = i + 1;
    }
    proof {
        assert(a@.take(a@.len() as int) =~= a@);
    }
    while i < n
        invariant
            a@.len() <= i <= n,
            r@.len() == i,
            val_of(r@) == val_of(a@),
            forall|j: int| 0 <= j < a@.len() ==> r@[j] == a@[j],
            forall|j: int| a@.len() <= j < i ==> r@[j] == 0,
        decreases n - i,
    {
        let ghost old_r = r@;
        r.push(0);
        proof {
            lemma_val_push(old_r, 0);
            assert(0 * pow64(old_r.len()) == 0) by (nonlinear_arith);
        }
        i = i + 1;
    }
    r
}

} // verus!
