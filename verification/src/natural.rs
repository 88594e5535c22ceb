//! Natural numbers of any size, as far as exact comparisons of powers need them.
use vstd::arithmetic::power::{lemma_pow_positive, pow};
use vstd::prelude::*;

verus! {

/// One more than the largest limb.
pub const LIMB_BASE: u64 = 0x1_0000_0000;

/// The number that a sequence of limbs stands for, least significant limb first.
pub open spec fn limbs_value(limbs: Seq<u32>) -> int
    decreases limbs.len(),
{
    if limbs.len() == 0 {
        0
    } else {
        limbs_value(limbs.drop_last()) + limbs.last() * pow(
            LIMB_BASE as int,
            (limbs.len() - 1) as nat,
        )
    }
}

proof fn lemma_limbs_value_bound(limbs: Seq<u32>)
    ensures
        0 <= limbs_value(limbs) < pow(LIMB_BASE as int, limbs.len()),
    decreases limbs.len(),
{
    reveal(pow);
    if limbs.len() > 0 {
        let k = (limbs.len() - 1) as nat;
        lemma_limbs_value_bound(limbs.drop_last());
        lemma_pow_positive(LIMB_BASE as int, k);
        let p = pow(LIMB_BASE as int, k);
        let x = limbs.last() as int;
        assert(pow(LIMB_BASE as int, limbs.len()) == LIMB_BASE * p);
        assert(0 <= x * p && x * p + p <= LIMB_BASE * p) by (nonlinear_arith)
            requires
                0 <= x,
                x + 1 <= LIMB_BASE,
                p > 0,
        ;
    }
}

proof fn lemma_limbs_value_push(limbs: Seq<u32>, x: u32)
    ensures
        limbs_value(limbs.push(x)) == limbs_value(limbs) + x * pow(LIMB_BASE as int, limbs.len()),
{
    assert(limbs.push(x).drop_last() =~= limbs);
}

proof fn lemma_limbs_value_take(limbs: Seq<u32>, i: int)
    requires
        0 <= i < limbs.len(),
    ensures
        limbs_value(limbs.take(i + 1)) == limbs_value(limbs.take(i)) + limbs[i] * pow(
            LIMB_BASE as int,
            i as nat,
        ),
{
    assert(limbs.take(i + 1).drop_last() =~= limbs.take(i));
}

/// A natural number.
pub struct Natural {
    limbs: Vec<u32>,
}

impl View for Natural {
    type V = int;

    closed spec fn view(&self) -> int {
        limbs_value(self.limbs@)
    }
}

impl Natural {
    /// The number one.
    pub fn one() -> (n: Natural)
        ensures
            n@ == 1,
    {
        let mut limbs: Vec<u32> = Vec::new();
        limbs.push(1);
        proof {
            assert(limbs@ =~= Seq::<u32>::empty().push(1));
            lemma_limbs_value_push(Seq::<u32>::empty(), 1);
            reveal(pow);
        }
        Natural { limbs }
    }

    /// The number multiplied with `m`.
    pub fn times(&self, m: u64) -> (n: Natural)
        ensures
            n@ == self@ * m,
    {
        let len: usize = self.limbs.len();
        let mut limbs: Vec<u32> = Vec::new();
        let mut carry: u64 = 0;
        let mut i: usize = 0;
        proof {
            assert(self.limbs@.take(0) =~= Seq::<u32>::empty());
            reveal(pow);
        }
        while i < len
            invariant
                len == self.limbs@.len(),
                i <= len,
                limbs@.len() == i,
                carry <= m,
                limbs_value(limbs@) + carry * pow(LIMB_BASE as int, i as nat) == limbs_value(
                    self.limbs@.take(i as int),
                ) * m,
            decreases len - i,
        {
            let ghost before = limbs@;
            let ghost old_carry = carry;
            let limb: u32 = self.limbs[i];
            assert(limb * m + carry <= 0xFFFF_FFFF * m + m) by (nonlinear_arith)
                requires
                    limb <= 0xFFFF_FFFF,
                    carry <= m,
            ;
            assert(0xFFFF_FFFF * m + m <= 0xFFFF_FFFF_FFFF_FFFF * 0x1_0000_0000) by (nonlinear_arith)
                requires
                    m <= 0xFFFF_FFFF_FFFF_FFFF,
            ;
            let product: u128 = (limb as u128) * (m as u128) + (carry as u128);
            let low: u32 = (product % (LIMB_BASE as u128)) as u32;
            let high: u128 = product / (LIMB_BASE as u128);
            assert(high <= m) by (nonlinear_arith)
                requires
                    high == product / 0x1_0000_0000,
                    product <= 0xFFFF_FFFF * m + m,
            ;
            carry = high as u64;
            limbs.push(low);
            proof {
                lemma_limbs_value_push(before, low);
                lemma_limbs_value_take(self.limbs@, i as int);
                reveal(pow);
                let p = pow(LIMB_BASE as int, i as nat);
                let b = LIMB_BASE as int;
                assert(pow(b, (i + 1) as nat) == b * p);
                let u = limbs_value(self.limbs@.take(i as int));
                let v = limbs_value(before);
                assert(v + low * p + carry * (b * p) == (u + limb * p) * m) by (nonlinear_arith)
                    requires
                        v + old_carry * p == u * m,
                        low + carry * b == limb * m + old_carry,
                ;
            }
            i = i + 1;
        }
        let ghost before = limbs@;
        let low: u32 = (carry % LIMB_BASE) as u32;
        let high: u32 = (carry / LIMB_BASE) as u32;
        limbs.push(low);
        limbs.push(high);
        proof {
            assert(self.limbs@.take(len as int) =~= self.limbs@);
            lemma_limbs_value_push(before, low);
            lemma_limbs_value_push(before.push(low), high);
            reveal(pow);
            let p = pow(LIMB_BASE as int, len as nat);
            let b = LIMB_BASE as int;
            assert(pow(b, (len + 1) as nat) == b * p);
            assert(low * p + high * (b * p) == carry * p) by (nonlinear_arith)
                requires
                    low + high * b == carry,
            ;
        }
        Natural { limbs }
    }

    /// The number multiplied with `m` to the power `e`.
    pub fn times_power(&self, m: u64, e: u32) -> (n: Natural)
        ensures
            n@ == self@ * pow(m as int, e as nat),
    {
        let mut result: Natural = self.times(1);
        let mut i: u32 = 0;
        proof {
            reveal(pow);
            assert(self@ * 1 == self@);
        }
        while i < e
            invariant
                i <= e,
                result@ == self@ * pow(m as int, i as nat),
            decreases e - i,
        {
            proof {
                let p = pow(m as int, i as nat);
                reveal(pow);
                assert(pow(m as int, (i + 1) as nat) == m * p);
                assert((self@ * p) * m == self@ * (m * p)) by (nonlinear_arith);
            }
            result = result.times(m);
            i = i + 1;
        }
        result
    }

    fn limb(&self, i: usize) -> (x: u32)
        ensures
            x == (if i < self.limbs@.len() {
                self.limbs@[i as int]
            } else {
                0
            }),
    {
        if i < self.limbs.len() {
            self.limbs[i]
        } else {
            0
        }
    }

    /// Whether the number does not exceed `other`.
    pub fn at_most(&self, other: &Natural) -> (yes: bool)
        ensures
            yes == (self@ <= other@),
    {
        let mut i: usize = self.limbs.len();
        if other.limbs.len() > i {
            i = other.limbs.len();
        }
        let ghost top = i as int;
        proof {
            lemma_padded_whole(self.limbs@, top);
            lemma_padded_whole(other.limbs@, top);
        }
        while i > 0
            invariant
                0 <= i <= top,
                limbs_value(self.limbs@) - limbs_value(padded(self.limbs@, i as int))
                    == limbs_value(other.limbs@) - limbs_value(padded(other.limbs@, i as int)),
            decreases i,
        {
            let a: u32 = self.limb(i - 1);
            let b: u32 = other.limb(i - 1);
            proof {
                let j = i - 1;
                let p = pow(LIMB_BASE as int, j as nat);
                lemma_padded_step(self.limbs@, j);
                lemma_padded_step(other.limbs@, j);
                lemma_limbs_value_bound(padded(self.limbs@, j));
                lemma_limbs_value_bound(padded(other.limbs@, j));
                lemma_pow_positive(LIMB_BASE as int, j as nat);
                if a < b {
                    assert(a * p + p <= b * p) by (nonlinear_arith)
                        requires
                            a + 1 <= b,
                            p > 0,
                    ;
                }
                if b < a {
                    assert(b * p + p <= a * p) by (nonlinear_arith)
                        requires
                            b + 1 <= a,
                            p > 0,
                    ;
                }
            }
            if a < b {
                return true;
            }
            if b < a {
                return false;
            }
            i = i - 1;
        }
        true
    }
}

/// The lowest `i` limbs, with zeros where there are none.
spec fn padded(limbs: Seq<u32>, i: int) -> Seq<u32> {
    Seq::new(
        i as nat,
        |j: int|
            if j < limbs.len() {
                limbs[j]
            } else {
                0u32
            },
    )
}

proof fn lemma_padded_step(limbs: Seq<u32>, i: int)
    requires
        0 <= i,
    ensures
        limbs_value(padded(limbs, i + 1)) == limbs_value(padded(limbs, i)) + (if i < limbs.len() {
            limbs[i]
        } else {
            0
        }) * pow(LIMB_BASE as int, i as nat),
        padded(limbs, i).len() == i,
{
    assert(padded(limbs, i + 1).drop_last() =~= padded(limbs, i));
}

proof fn lemma_padded_whole(limbs: Seq<u32>, top: int)
    requires
        limbs.len() <= top,
    ensures
        limbs_value(padded(limbs, top)) == limbs_value(limbs),
    decreases top - limbs.len(),
{
    if limbs.len() == top {
        assert(padded(limbs, top) =~= limbs);
    } else {
        lemma_padded_whole(limbs, top - 1);
        lemma_padded_step(limbs, top - 1);
        let p = pow(LIMB_BASE as int, (top - 1) as nat);
        assert(0 * p == 0) by (nonlinear_arith);
    }
}

} // verus!
