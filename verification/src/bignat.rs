//! Natural numbers of any size, as little-endian vectors of 64-bit limbs.

use vstd::prelude::*;

verus! {

/// The base of the limbs: 2 to the power 64.
pub open spec fn limb_base() -> nat {
    0x1_0000_0000_0000_0000
}

/// The base to the power `n`.
pub open spec fn base_pow(n: nat) -> nat
    decreases n,
{
    if n == 0 {
        1
    } else {
        limb_base() * base_pow((n - 1) as nat)
    }
}

/// The number that the limbs stand for, the first limb being the lowest.
pub open spec fn limbs_value(limbs: Seq<u64>) -> nat
    decreases limbs.len(),
{
    if limbs.len() == 0 {
        0
    } else {
        limbs[0] as nat + limb_base() * limbs_value(limbs.skip(1))
    }
}

/// The limb at place `i`, which is zero beyond the last limb.
pub open spec fn limb_at(limbs: Seq<u64>, i: int) -> nat {
    if 0 <= i < limbs.len() {
        limbs[i] as nat
    } else {
        0
    }
}

/// The number that the first `i` limbs stand for.
pub open spec fn low_value(limbs: Seq<u64>, i: int) -> nat {
    if i >= limbs.len() {
        limbs_value(limbs)
    } else if i <= 0 {
        0
    } else {
        limbs_value(limbs.take(i))
    }
}

/// A power of the base is at least one.
proof fn lemma_base_pow_positive(n: nat)
    ensures
        base_pow(n) >= 1,
    decreases n,
{
    if n > 0 {
        lemma_base_pow_positive((n - 1) as nat);
        assert(limb_base() * base_pow((n - 1) as nat) >= 1) by (nonlinear_arith)
            requires
                limb_base() >= 1,
                base_pow((n - 1) as nat) >= 1,
        ;
    }
}

/// A higher power of the base is no smaller.
proof fn lemma_base_pow_monotonic(m: nat, n: nat)
    requires
        m <= n,
    ensures
        base_pow(m) <= base_pow(n),
    decreases n,
{
    if m < n {
        lemma_base_pow_monotonic(m, (n - 1) as nat);
        lemma_base_pow_positive((n - 1) as nat);
        assert(base_pow((n - 1) as nat) <= limb_base() * base_pow((n - 1) as nat))
            by (nonlinear_arith)
            requires
                limb_base() >= 1,
        ;
    }
}

/// The limbs below place `i` and the limbs from place `i` on, put together.
proof fn lemma_split(limbs: Seq<u64>, i: int)
    requires
        0 <= i <= limbs.len(),
    ensures
        limbs_value(limbs) == limbs_value(limbs.take(i)) + base_pow(i as nat) * limbs_value(
            limbs.skip(i),
        ),
    decreases i,
{
    if i == 0 {
        assert(limbs.skip(0) =~= limbs);
        assert(limbs.take(0) =~= Seq::<u64>::empty());
        assert(limbs_value(Seq::<u64>::empty()) == 0);
        assert(base_pow(0) == 1);
        assert(1 * limbs_value(limbs) == limbs_value(limbs)) by (nonlinear_arith);
    } else {
        let rest = limbs.skip(1);
        lemma_split(rest, i - 1);
        assert(rest.take(i - 1) =~= limbs.take(i).skip(1));
        assert(rest.skip(i - 1) =~= limbs.skip(i));
        assert(limbs.take(i)[0] == limbs[0]);
        let low = limbs_value(rest.take(i - 1));
        let high = limbs_value(limbs.skip(i));
        let p = base_pow((i - 1) as nat);
        assert(limbs_value(limbs) == limbs[0] as nat + limb_base() * limbs_value(rest));
        assert(limbs_value(limbs.take(i)) == limbs[0] as nat + limb_base() * low);
        assert(base_pow(i as nat) == limb_base() * p);
        assert(limb_base() * (low + p * high) == limb_base() * low + (limb_base() * p) * high)
            by (nonlinear_arith);
    }
}

/// Limbs stand for a number below the base to the power of their count.
proof fn lemma_bound(limbs: Seq<u64>)
    ensures
        limbs_value(limbs) < base_pow(limbs.len()),
    decreases limbs.len(),
{
    if limbs.len() > 0 {
        lemma_bound(limbs.skip(1));
        let rest = limbs_value(limbs.skip(1));
        let p = base_pow((limbs.len() - 1) as nat);
        assert(limbs[0] as nat + limb_base() * rest < limb_base() * p) by (nonlinear_arith)
            requires
                rest < p,
                (limbs[0] as nat) < limb_base(),
        ;
    }
}

/// Limbs that are all zero stand for zero.
proof fn lemma_zeros(limbs: Seq<u64>)
    requires
        forall|j: int| 0 <= j < limbs.len() ==> limbs[j] == 0,
    ensures
        limbs_value(limbs) == 0,
    decreases limbs.len(),
{
    if limbs.len() > 0 {
        lemma_zeros(limbs.skip(1));
        assert(limb_base() * 0 == 0);
    }
}

/// One more limb adds that limb times the base to the power of its place.
proof fn lemma_low_value_step(limbs: Seq<u64>, i: int)
    requires
        0 <= i,
    ensures
        low_value(limbs, i + 1) == low_value(limbs, i) + limb_at(limbs, i) * base_pow(i as nat),
{
    if i < limbs.len() {
        let longer = if i + 1 >= limbs.len() {
            limbs
        } else {
            limbs.take(i + 1)
        };
        assert(limbs.take(limbs.len() as int) =~= limbs);
        assert(longer =~= limbs.take(i + 1));
        lemma_split(longer, i);
        assert(longer.take(i) =~= limbs.take(i));
        assert(longer.skip(i) =~= seq![limbs[i]]);
        assert(seq![limbs[i]].skip(1) =~= Seq::<u64>::empty());
        assert(limbs_value(Seq::<u64>::empty()) == 0);
        assert(limbs_value(seq![limbs[i]]) == limbs[i] as nat + limb_base() * limbs_value(
            seq![limbs[i]].skip(1),
        ));
        assert(limbs.take(0) =~= Seq::<u64>::empty());
        assert(base_pow(i as nat) * (limbs[i] as nat) == (limbs[i] as nat) * base_pow(i as nat))
            by (nonlinear_arith);
    } else {
        assert(0 * base_pow(i as nat) == 0);
    }
}

/// Appending a limb adds that limb times the base to the power of its place.
proof fn lemma_push(limbs: Seq<u64>, limb: u64)
    ensures
        limbs_value(limbs.push(limb)) == limbs_value(limbs) + limb * base_pow(limbs.len()),
{
    let longer = limbs.push(limb);
    lemma_low_value_step(longer, limbs.len() as int);
    assert(longer.take(limbs.len() as int) =~= limbs);
    assert(limbs.take(0) =~= Seq::<u64>::empty());
}

/// Limbs that are zero from place `n` on stand for what the first `n` stand for.
proof fn lemma_high_zeros(limbs: Seq<u64>, n: int)
    requires
        0 <= n <= limbs.len(),
        forall|j: int| n <= j < limbs.len() ==> limbs[j] == 0,
    ensures
        limbs_value(limbs) == limbs_value(limbs.take(n)),
{
    lemma_split(limbs, n);
    lemma_zeros(limbs.skip(n));
    assert(base_pow(n as nat) * 0 == 0);
}

/// Limbs whose highest limb is not zero stand for at least the base to the
/// power of that limb's place.
proof fn lemma_top_limb(limbs: Seq<u64>)
    requires
        limbs.len() > 0,
        limbs[limbs.len() - 1] != 0,
    ensures
        limbs_value(limbs) >= base_pow((limbs.len() - 1) as nat),
{
    let n = limbs.len() as int;
    lemma_low_value_step(limbs, n - 1);
    let p = base_pow((n - 1) as nat);
    let top = limbs[n - 1] as nat;
    assert(top * p >= p) by (nonlinear_arith)
        requires
            top >= 1,
    ;
}

/// Of two numbers with the same count of limbs, the one with the greater limb
/// at the highest place where they differ is the greater.
proof fn lemma_first_difference(x: Seq<u64>, y: Seq<u64>, i: int)
    requires
        x.len() == y.len(),
        0 <= i < x.len(),
        x[i] > y[i],
        forall|j: int| i < j < x.len() ==> x[j] == y[j],
    ensures
        limbs_value(x) > limbs_value(y),
{
    lemma_split(x, i);
    lemma_split(y, i);
    lemma_bound(y.take(i));
    assert(x.skip(i).skip(1) =~= y.skip(i).skip(1));
    let high = limbs_value(x.skip(i).skip(1));
    let p = base_pow(i as nat);
    let xi = x[i] as nat;
    let yi = y[i] as nat;
    assert(limbs_value(x.skip(i)) == xi + limb_base() * high);
    assert(limbs_value(y.skip(i)) == yi + limb_base() * high);
    assert(p * (xi + limb_base() * high) >= p * (yi + limb_base() * high) + p)
        by (nonlinear_arith)
        requires
            xi >= yi + 1,
    ;
}

/// The sum that one step of a limb-by-limb product keeps.
proof fn lemma_product_step(
    done: nat,
    carry: nat,
    p: nat,
    limb: nat,
    factor: nat,
    low: nat,
    high: nat,
    below: nat,
)
    requires
        done + carry * p == below * factor,
        low + limb_base() * high == limb * factor + carry,
    ensures
        (done + low * p) + high * (limb_base() * p) == (below + limb * p) * factor,
{
    assert((low + limb_base() * high) * p == low * p + high * (limb_base() * p))
        by (nonlinear_arith);
    assert((limb * factor + carry) * p == (limb * p) * factor + carry * p) by (nonlinear_arith);
    assert((below + limb * p) * factor == below * factor + (limb * p) * factor)
        by (nonlinear_arith);
}

/// The sum that one step of a limb-by-limb addition keeps.
proof fn lemma_sum_step(
    done: nat,
    carry: nat,
    p: nat,
    x: nat,
    y: nat,
    low: nat,
    high: nat,
    below: nat,
)
    requires
        done + carry * p == below,
        low + limb_base() * high == x + y + carry,
    ensures
        (done + low * p) + high * (limb_base() * p) == below + x * p + y * p,
{
    assert((low + limb_base() * high) * p == low * p + high * (limb_base() * p))
        by (nonlinear_arith);
    assert((x + y + carry) * p == x * p + y * p + carry * p) by (nonlinear_arith);
}

/// The number of limbs up to the highest one that is not zero.
spec fn significant(limbs: Seq<u64>) -> nat
    decreases limbs.len(),
{
    if limbs.len() > 0 && limbs.last() == 0 {
        significant(limbs.drop_last())
    } else {
        limbs.len()
    }
}

/// No more limbs are significant than there are.
proof fn lemma_significant_bound(limbs: Seq<u64>)
    ensures
        significant(limbs) <= limbs.len(),
    decreases limbs.len(),
{
    if limbs.len() > 0 && limbs.last() == 0 {
        lemma_significant_bound(limbs.drop_last());
    }
}

/// A natural number of any size.
pub struct BigNat {
    limbs: Vec<u64>,
}

impl View for BigNat {
    type V = nat;

    closed spec fn view(&self) -> nat {
        limbs_value(self.limbs@)
    }
}

impl BigNat {
    /// The number `value`.
    pub fn from_u128(value: u128) -> (n: Self)
        ensures
            n@ == value,
    {
        let low = (value % 0x1_0000_0000_0000_0000) as u64;
        let high = (value / 0x1_0000_0000_0000_0000) as u64;
        let mut limbs: Vec<u64> = Vec::new();
        limbs.push(low);
        proof {
            lemma_push(Seq::<u64>::empty(), low);
            assert(limbs@ =~= Seq::<u64>::empty().push(low));
            assert(limbs_value(Seq::<u64>::empty()) == 0);
            assert(base_pow(0) == 1);
            assert(low * 1 == low);
        }
        let ghost one = limbs@;
        limbs.push(high);
        proof {
            lemma_push(one, high);
            assert(base_pow(0) == 1);
            assert(base_pow(1) == limb_base() * base_pow(0));
            assert(base_pow(1) == limb_base());
            assert(limbs_value(one) == low);
            assert(high * base_pow(1) == high * 0x1_0000_0000_0000_0000);
        }
        BigNat { limbs }
    }

    /// The limbs of the number, the lowest first.
    pub fn as_limbs(&self) -> (limbs: &Vec<u64>)
        ensures
            limbs_value(limbs@) == self@,
    {
        &self.limbs
    }

    /// The product of the number and one limb.
    fn times_limb(&self, factor: u64) -> (product: Self)
        ensures
            product@ == self@ * factor,
    {
        let mut limbs: Vec<u64> = Vec::new();
        let mut carry: u64 = 0;
        let mut i: usize = 0;
        proof {
            assert(limbs_value(limbs@) == 0);
            assert(0 * base_pow(0) == 0);
            assert(0 * (factor as nat) == 0);
        }
        while i < self.limbs.len()
            invariant
                i <= self.limbs.len(),
                limbs.len() == i,
                limbs_value(limbs@) + carry * base_pow(i as nat) == low_value(
                    self.limbs@,
                    i as int,
                ) * factor,
            decreases self.limbs.len() - i,
        {
            let limb = self.limbs[i];
            assert(limb as u128 * factor as u128 + carry as u128 <= u128::MAX)
                by (nonlinear_arith)
                requires
                    limb <= u64::MAX,
                    factor <= u64::MAX,
                    carry <= u64::MAX,
            ;
            let t: u128 = limb as u128 * factor as u128 + carry as u128;
            assert(t / 0x1_0000_0000_0000_0000 <= u64::MAX) by (nonlinear_arith)
                requires
                    t == limb as u128 * factor as u128 + carry as u128,
                    limb <= u64::MAX,
                    factor <= u64::MAX,
                    carry <= u64::MAX,
            ;
            let low = (t % 0x1_0000_0000_0000_0000) as u64;
            let high = (t / 0x1_0000_0000_0000_0000) as u64;
            proof {
                lemma_push(limbs@, low);
                lemma_low_value_step(self.limbs@, i as int);
                lemma_product_step(
                    limbs_value(limbs@),
                    carry as nat,
                    base_pow(i as nat),
                    limb as nat,
                    factor as nat,
                    low as nat,
                    high as nat,
                    low_value(self.limbs@, i as int),
                );
                assert(base_pow((i + 1) as nat) == limb_base() * base_pow(i as nat));
            }
            limbs.push(low);
            carry = high;
            i = i + 1;
        }
        if carry != 0 {
            proof {
                lemma_push(limbs@, carry);
            }
            limbs.push(carry);
        } else {
            assert(0 * base_pow(i as nat) == 0);
        }
        BigNat { limbs }
    }

    /// The product of the number and the base of the limbs.
    fn times_base(&self) -> (product: Self)
        ensures
            product@ == self@ * limb_base(),
    {
        let mut limbs: Vec<u64> = Vec::new();
        limbs.push(0);
        let mut i: usize = 0;
        while i < self.limbs.len()
            invariant
                i <= self.limbs.len(),
                limbs@ == seq![0u64] + self.limbs@.take(i as int),
            decreases self.limbs.len() - i,
        {
            limbs.push(self.limbs[i]);
            assert(limbs@ =~= seq![0u64] + self.limbs@.take(i + 1));
            i = i + 1;
        }
        proof {
            assert(self.limbs@.take(self.limbs.len() as int) =~= self.limbs@);
            assert(limbs@.skip(1) =~= self.limbs@);
            assert(limb_base() * limbs_value(self.limbs@) == limbs_value(self.limbs@)
                * limb_base()) by (nonlinear_arith);
        }
        BigNat { limbs }
    }

    /// The sum of two numbers.
    pub fn add(&self, other: &BigNat) -> (sum: Self)
        ensures
            sum@ == self@ + other@,
    {
        let mut limbs: Vec<u64> = Vec::new();
        let mut carry: u64 = 0;
        let mut i: usize = 0;
        proof {
            assert(limbs_value(limbs@) == 0);
            assert(0 * base_pow(0) == 0);
        }
        while i < self.limbs.len() || i < other.limbs.len()
            invariant
                limbs.len() == i,
                carry <= 1,
                limbs_value(limbs@) + carry * base_pow(i as nat) == low_value(
                    self.limbs@,
                    i as int,
                ) + low_value(other.limbs@, i as int),
            decreases
                    (if self.limbs.len() > other.limbs.len() {
                        self.limbs.len()
                    } else {
                        other.limbs.len()
                    }) - i,
        {
            let x: u64 = if i < self.limbs.len() {
                self.limbs[i]
            } else {
                0
            };
            let y: u64 = if i < other.limbs.len() {
                other.limbs[i]
            } else {
                0
            };
            let t: u128 = x as u128 + y as u128 + carry as u128;
            let low = (t % 0x1_0000_0000_0000_0000) as u64;
            let high = (t / 0x1_0000_0000_0000_0000) as u64;
            proof {
                lemma_push(limbs@, low);
                lemma_low_value_step(self.limbs@, i as int);
                lemma_low_value_step(other.limbs@, i as int);
                lemma_sum_step(
                    limbs_value(limbs@),
                    carry as nat,
                    base_pow(i as nat),
                    x as nat,
                    y as nat,
                    low as nat,
                    high as nat,
                    low_value(self.limbs@, i as int) + low_value(other.limbs@, i as int),
                );
                assert(base_pow((i + 1) as nat) == limb_base() * base_pow(i as nat));
            }
            limbs.push(low);
            carry = high;
            i = i + 1;
        }
        if carry != 0 {
            proof {
                lemma_push(limbs@, carry);
            }
            limbs.push(carry);
        } else {
            assert(0 * base_pow(i as nat) == 0);
        }
        BigNat { limbs }
    }

    /// Drops the limbs above the highest one that is not zero: what is left
    /// are the limbs up to that one, in their places, and the number stays
    /// the same.
    fn trim(&mut self)
        ensures
            final(self).limbs@ == old(self).limbs@.take(significant(old(self).limbs@) as int),
            final(self)@ == old(self)@,
    {
        let ghost all = self.limbs@;
        proof {
            assert(all.take(all.len() as int) =~= all);
        }
        while self.limbs.len() > 0 && self.limbs[self.limbs.len() - 1] == 0
            invariant
                all == old(self).limbs@,
                self.limbs.len() <= all.len(),
                self.limbs@ == all.take(self.limbs.len() as int),
                significant(self.limbs@) == significant(all),
                self@ == old(self)@,
            decreases self.limbs.len(),
        {
            proof {
                let n = self.limbs.len() as int;
                assert forall|j: int| n - 1 <= j < n implies self.limbs@[j] == 0 by {}
                lemma_high_zeros(self.limbs@, n - 1);
                assert(self.limbs@.take(n - 1) =~= self.limbs@.drop_last());
                assert(self.limbs@.drop_last() =~= all.take(n - 1));
            }
            self.limbs.pop();
        }
        proof {
            lemma_significant_bound(all);
            assert(significant(self.limbs@) == self.limbs.len());
        }
    }

    /// The product of two numbers.
    pub fn mul(&self, other: &BigNat) -> (product: Self)
        ensures
            product@ == self@ * other@,
    {
        let mut product = BigNat { limbs: Vec::new() };
        let mut j: usize = other.limbs.len();
        proof {
            assert(other.limbs@.skip(j as int) =~= Seq::<u64>::empty());
            assert(limbs_value(Seq::<u64>::empty()) == 0);
            assert(self@ * 0 == 0);
        }
        while j > 0
            invariant
                j <= other.limbs.len(),
                product@ == self@ * limbs_value(other.limbs@.skip(j as int)),
            decreases j,
        {
            j = j - 1;
            let shifted = product.times_base();
            let partial = self.times_limb(other.limbs[j]);
            proof {
                let rest = other.limbs@.skip(j as int);
                assert(rest.skip(1) =~= other.limbs@.skip(j + 1));
                let high = limbs_value(rest.skip(1));
                let limb = other.limbs@[j as int] as nat;
                assert(limbs_value(rest) == limb + limb_base() * high);
                assert((self@ * high) * limb_base() + self@ * limb == self@ * (limb + limb_base()
                    * high)) by (nonlinear_arith);
            }
            product = shifted.add(&partial);
        }
        assert(other.limbs@.skip(0) =~= other.limbs@);
        product.trim();
        product
    }

    /// The number of limbs up to the highest one that is not zero.
    fn significant_len(&self) -> (n: usize)
        ensures
            n <= self.limbs.len(),
            n > 0 ==> self.limbs@[n - 1] != 0,
            self@ == limbs_value(self.limbs@.take(n as int)),
    {
        let mut n: usize = self.limbs.len();
        while n > 0 && self.limbs[n - 1] == 0
            invariant
                n <= self.limbs.len(),
                forall|j: int| n <= j < self.limbs.len() ==> self.limbs@[j] == 0,
            decreases n,
        {
            n = n - 1;
        }
        proof {
            lemma_high_zeros(self.limbs@, n as int);
        }
        n
    }

    /// Whether the number is greater than `other`.
    pub fn exceeds(&self, other: &BigNat) -> (greater: bool)
        ensures
            greater == (self@ > other@),
    {
        let n = self.significant_len();
        let m = other.significant_len();
        let ghost x = self.limbs@.take(n as int);
        let ghost y = other.limbs@.take(m as int);
        if n != m {
            proof {
                lemma_bound(x);
                lemma_bound(y);
                if n > m {
                    lemma_top_limb(x);
                    lemma_base_pow_monotonic(m as nat, (n - 1) as nat);
                } else {
                    lemma_top_limb(y);
                    lemma_base_pow_monotonic(n as nat, (m - 1) as nat);
                }
            }
            return n > m;
        }
        let mut i: usize = n;
        while i > 0
            invariant
                i <= n,
                n == m,
                n <= self.limbs.len(),
                m <= other.limbs.len(),
                x == self.limbs@.take(n as int),
                y == other.limbs@.take(m as int),
                self@ == limbs_value(x),
                other@ == limbs_value(y),
                forall|j: int| i <= j < n ==> x[j] == y[j],
            decreases i,
        {
            i = i - 1;
            if self.limbs[i] != other.limbs[i] {
                proof {
                    assert(x[i as int] == self.limbs@[i as int]);
                    assert(y[i as int] == other.limbs@[i as int]);
                    if self.limbs[i as int] > other.limbs[i as int] {
                        lemma_first_difference(x, y, i as int);
                    } else {
                        lemma_first_difference(y, x, i as int);
                    }
                }
                return self.limbs[i] > other.limbs[i];
            }
        }
        assert(x =~= y);
        false
    }
}

} // verus!
