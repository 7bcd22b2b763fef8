//! Arbitrary-precision natural numbers, kept as little-endian bit vectors.
//!
//! The arithmetic of the number formats needs exact intermediate values that
//! do not fit in a machine word (a decimal literal of any length, the exact
//! quotient of two binary fractions). The operations here are simple
//! bit-serial ones; each is proved against ordinary arithmetic on `nat`.

use vstd::prelude::*;
use vstd::arithmetic::power2::{pow2, lemma_pow2_unfold, lemma_pow2_pos, lemma2_to64};
use vstd::arithmetic::div_mod::lemma_fundamental_div_mod_converse;

verus! {

/// The weight `w` of a bit if it is set, else zero.
pub open spec fn weigh(b: bool, w: nat) -> nat {
    if b {
        w
    } else {
        0
    }
}

/// The number that a little-endian bit sequence denotes.
spec fn bits_value(bits: Seq<bool>) -> nat
    decreases bits.len(),
{
    if bits.len() == 0 {
        0
    } else {
        weigh(bits[0], 1) + 2 * bits_value(bits.drop_first())
    }
}

/// A bit put before the others counts once, and doubles the others.
proof fn lemma_value_front(b: bool, s: Seq<bool>)
    ensures
        bits_value(s.insert(0, b)) == weigh(b, 1) + 2 * bits_value(s),
{
    assert(s.insert(0, b).drop_first() =~= s);
}

/// A bit put after the others counts with the weight of its place.
proof fn lemma_value_push(s: Seq<bool>, b: bool)
    ensures
        bits_value(s.push(b)) == bits_value(s) + weigh(b, pow2(s.len())),
    decreases s.len(),
{
    if s.len() == 0 {
        assert(s.push(b).drop_first() =~= Seq::<bool>::empty());
        assert(bits_value(s.push(b).drop_first()) == 0);
        assert(s.push(b)[0] == b);
        lemma2_to64();
    } else {
        assert(s.push(b).drop_first() =~= s.drop_first().push(b));
        assert(s.push(b)[0] == s[0]);
        lemma_value_push(s.drop_first(), b);
        lemma_pow2_unfold(s.len());
    }
}

/// `n` bits denote a number below two to the power `n`.
proof fn lemma_value_bound(s: Seq<bool>)
    ensures
        bits_value(s) < pow2(s.len()),
    decreases s.len(),
{
    if s.len() == 0 {
        lemma2_to64();
    } else {
        lemma_value_bound(s.drop_first());
        lemma_pow2_unfold(s.len());
    }
}

/// The lowest `i + 1` bits: the lowest `i`, and the bit at `i` with its weight.
proof fn lemma_value_take_next(s: Seq<bool>, i: int)
    requires
        0 <= i < s.len(),
    ensures
        bits_value(s.take(i + 1)) == bits_value(s.take(i)) + weigh(s[i], pow2(i as nat)),
{
    assert(s.take(i + 1) =~= s.take(i).push(s[i]));
    lemma_value_push(s.take(i), s[i]);
}

/// The bits from `i` on: the bit at `i`, and twice the bits after it.
proof fn lemma_value_skip_prev(s: Seq<bool>, i: int)
    requires
        0 <= i < s.len(),
    ensures
        bits_value(s.skip(i)) == weigh(s[i], 1) + 2 * bits_value(s.skip(i + 1)),
{
    assert(s.skip(i).drop_first() =~= s.skip(i + 1));
}

/// The bits from `i` on denote no more than all bits.
proof fn lemma_value_skip_le(s: Seq<bool>, i: int)
    requires
        0 <= i <= s.len(),
    ensures
        bits_value(s.skip(i)) <= bits_value(s),
    decreases i,
{
    if i == 0 {
        assert(s.skip(0) =~= s);
    } else {
        lemma_value_skip_le(s, i - 1);
        lemma_value_skip_prev(s, i - 1);
    }
}

/// How many bits a number has: the place of its highest set bit.
pub open spec fn bit_length(x: nat) -> nat
    decreases x,
{
    if x == 0 {
        0
    } else {
        1 + bit_length(x / 2)
    }
}

/// A number from two to the power `k - 1` up to below two to the power `k`
/// has `k` bits.
pub proof fn lemma_bit_length(x: nat, k: nat)
    requires
        k >= 1,
        pow2((k - 1) as nat) <= x < pow2(k),
    ensures
        bit_length(x) == k,
    decreases k,
{
    lemma2_to64();
    lemma_pow2_unfold(k);
    if k == 1 {
        assert(x == 1);
        assert(bit_length(x / 2) == 0);
    } else {
        lemma_pow2_unfold((k - 1) as nat);
        lemma_bit_length(x / 2, (k - 1) as nat);
    }
}

/// Bits that are all clear denote zero.
proof fn lemma_value_clear(s: Seq<bool>)
    requires
        forall|i: int| 0 <= i < s.len() ==> !s[i],
    ensures
        bits_value(s) == 0,
    decreases s.len(),
{
    if s.len() > 0 {
        lemma_value_clear(s.drop_first());
    }
}

/// A natural number of any size.
pub struct BigNat {
    bits: Vec<bool>,
}

impl View for BigNat {
    type V = nat;

    closed spec fn view(&self) -> nat {
        bits_value(self.bits@)
    }
}

impl BigNat {
    /// How many bits the number is kept on.
    pub closed spec fn width(&self) -> nat {
        self.bits@.len()
    }

    /// The number zero.
    pub fn zero() -> (r: BigNat)
        ensures
            r@ == 0,
    {
        BigNat { bits: Vec::new() }
    }

    /// The number `x`.
    pub fn from_u64(x: u64) -> (r: BigNat)
        ensures
            r@ == x,
    {
        let mut bits: Vec<bool> = Vec::new();
        let mut rest: u64 = x;
        let mut i: u32 = 0;
        proof {
            lemma2_to64();
            assert(rest * pow2(0) == rest) by (nonlinear_arith)
                requires
                    pow2(0) == 1,
            ;
        }
        while i < 64
            invariant
                i <= 64,
                bits.len() == i,
                bits_value(bits@) + rest * pow2(i as nat) == x,
            decreases 64 - i,
        {
            proof {
                lemma_value_push(bits@, rest % 2 == 1);
                lemma_pow2_unfold((i + 1) as nat);
                assert(rest * pow2(i as nat) == (rest / 2) * (2 * pow2(i as nat)) + weigh(
                    rest % 2 == 1,
                    pow2(i as nat),
                )) by (nonlinear_arith)
                    requires
                        rest == 2 * (rest / 2) + rest % 2,
                        rest % 2 == 0 || rest % 2 == 1,
                        weigh(rest % 2 == 1, pow2(i as nat)) == (rest % 2) * pow2(i as nat),
                ;
            }
            bits.push(rest % 2 == 1);
            rest = rest / 2;
            i += 1;
        }
        proof {
            lemma_pow2_pos(64);
            lemma2_to64();
            vstd::arithmetic::power2::lemma2_to64_rest();
            assert(rest == 0) by (nonlinear_arith)
                requires
                    rest * pow2(64) <= x,
                    x < 0x10000000000000000,
                    pow2(64) == 0x10000000000000000,
                    rest >= 0,
            ;
        }
        BigNat { bits }
    }

    /// Whether the number is zero.
    pub fn is_zero(&self) -> (b: bool)
        ensures
            b == (self@ == 0),
    {
        let mut i: usize = 0;
        while i < self.bits.len()
            invariant
                i <= self.bits.len(),
                bits_value(self.bits@.take(i as int)) == 0,
            decreases self.bits.len() - i,
        {
            proof {
                lemma_value_take_next(self.bits@, i as int);
                lemma_pow2_pos(i as nat);
            }
            if self.bits[i] {
                proof {
                    lemma_value_low_le(self.bits@, i as int + 1);
                }
                return false;
            }
            i += 1;
        }
        assert(self.bits@.take(i as int) =~= self.bits@);
        true
    }

    /// Twice the number, plus one if `low` is set.
    pub fn shift_in(&mut self, low: bool)
        ensures
            final(self)@ == 2 * old(self)@ + weigh(low, 1),
    {
        proof {
            lemma_value_front(low, self.bits@);
        }
        self.bits.insert(0, low);
    }

    /// A copy of the number.
    pub fn duplicate(&self) -> (r: BigNat)
        ensures
            r@ == self@,
            r.width() == self.width(),
    {
        let mut bits: Vec<bool> = Vec::new();
        let mut i: usize = 0;
        while i < self.bits.len()
            invariant
                i <= self.bits.len(),
                bits@ == self.bits@.take(i as int),
            decreases self.bits.len() - i,
        {
            bits.push(self.bits[i]);
            assert(self.bits@.take(i + 1) =~= self.bits@.take(i as int).push(self.bits@[i as int]));
            i += 1;
        }
        assert(self.bits@.take(i as int) =~= self.bits@);
        BigNat { bits }
    }

    /// The number times two to the power `k`.
    pub fn shl(&self, k: usize) -> (r: BigNat)
        ensures
            r@ == self@ * pow2(k as nat),
    {
        let mut bits: Vec<bool> = Vec::new();
        let mut i: usize = 0;
        while i < k
            invariant
                i <= k,
                bits@ == Seq::new(i as nat, |j: int| false),
            decreases k - i,
        {
            bits.push(false);
            i += 1;
            assert(bits@ =~= Seq::new(i as nat, |j: int| false));
        }
        let mut i: usize = 0;
        assert(bits@ =~= Seq::new(k as nat, |j: int| false) + self.bits@.take(0));
        while i < self.bits.len()
            invariant
                i <= self.bits.len(),
                bits@ == Seq::new(k as nat, |j: int| false) + self.bits@.take(i as int),
            decreases self.bits.len() - i,
        {
            bits.push(self.bits[i]);
            i += 1;
            assert(bits@ =~= Seq::new(k as nat, |j: int| false) + self.bits@.take(i as int));
        }
        proof {
            assert(self.bits@.take(i as int) =~= self.bits@);
            lemma_value_shifted(self.bits@, k as nat);
        }
        BigNat { bits }
    }

    /// The same number on at least `n` bits.
    fn widened(&self, n: usize) -> (r: BigNat)
        ensures
            r@ == self@,
            r.bits.len() >= n,
            r.bits.len() >= self.bits.len(),
            r.bits.len() == n || r.bits.len() == self.bits.len(),
    {
        let mut r = self.duplicate();
        while r.bits.len() < n
            invariant
                r@ == self@,
                r.bits.len() >= self.bits.len(),
                r.bits.len() <= n || r.bits.len() == self.bits.len(),
            decreases n - r.bits.len(),
        {
            proof {
                lemma_value_push(r.bits@, false);
            }
            r.bits.push(false);
        }
        r
    }

    /// The sum with `other`.
    pub fn plus(&self, other: &BigNat) -> (r: BigNat)
        ensures
            r@ == self@ + other@,
    {
        let n: usize = if self.bits.len() > other.bits.len() {
            self.bits.len()
        } else {
            other.bits.len()
        };
        let a = self.widened(n);
        let b = other.widened(n);
        let mut out: Vec<bool> = Vec::new();
        let mut carry: bool = false;
        let mut i: usize = 0;
        proof {
            lemma2_to64();
        }
        while i < n
            invariant
                i <= n,
                a.bits.len() == n,
                b.bits.len() == n,
                out.len() == i,
                bits_value(out@) + weigh(carry, pow2(i as nat)) == bits_value(
                    a.bits@.take(i as int),
                ) + bits_value(b.bits@.take(i as int)),
            decreases n - i,
        {
            let x: bool = a.bits[i];
            let y: bool = b.bits[i];
            let low: bool = (x != y) != carry;
            let high: bool = (x && y) || (carry && (x || y));
            proof {
                lemma_value_take_next(a.bits@, i as int);
                lemma_value_take_next(b.bits@, i as int);
                lemma_value_push(out@, low);
                lemma_pow2_unfold((i + 1) as nat);
            }
            out.push(low);
            carry = high;
            i += 1;
        }
        proof {
            lemma_value_push(out@, carry);
            assert(a.bits@.take(n as int) =~= a.bits@);
            assert(b.bits@.take(n as int) =~= b.bits@);
        }
        out.push(carry);
        BigNat { bits: out }
    }

    /// The difference to `other`, which is not greater.
    pub fn minus(&self, other: &BigNat) -> (r: BigNat)
        requires
            other@ <= self@,
        ensures
            r@ == self@ - other@,
    {
        let n: usize = if self.bits.len() > other.bits.len() {
            self.bits.len()
        } else {
            other.bits.len()
        };
        let a = self.widened(n);
        let b = other.widened(n);
        let mut out: Vec<bool> = Vec::new();
        let mut borrow: bool = false;
        let mut i: usize = 0;
        proof {
            lemma2_to64();
        }
        while i < n
            invariant
                i <= n,
                a.bits.len() == n,
                b.bits.len() == n,
                out.len() == i,
                bits_value(out@) + bits_value(b.bits@.take(i as int)) == bits_value(
                    a.bits@.take(i as int),
                ) + weigh(borrow, pow2(i as nat)),
            decreases n - i,
        {
            let x: bool = a.bits[i];
            let y: bool = b.bits[i];
            let low: bool = (x != y) != borrow;
            let high: bool = (!x && (y || borrow)) || (y && borrow);
            proof {
                lemma_value_take_next(a.bits@, i as int);
                lemma_value_take_next(b.bits@, i as int);
                lemma_value_push(out@, low);
                lemma_pow2_unfold((i + 1) as nat);
            }
            out.push(low);
            borrow = high;
            i += 1;
        }
        proof {
            assert(a.bits@.take(n as int) =~= a.bits@);
            assert(b.bits@.take(n as int) =~= b.bits@);
            lemma_value_bound(out@);
        }
        BigNat { bits: out }
    }

    /// Whether the number is at most `other`.
    pub fn le(&self, other: &BigNat) -> (res: bool)
        ensures
            res == (self@ <= other@),
    {
        let n: usize = if self.bits.len() > other.bits.len() {
            self.bits.len()
        } else {
            other.bits.len()
        };
        let a = self.widened(n);
        let b = other.widened(n);
        let mut res: bool = true;
        let mut i: usize = 0;
        while i < n
            invariant
                i <= n,
                a.bits.len() == n,
                b.bits.len() == n,
                res == (bits_value(a.bits@.take(i as int)) <= bits_value(b.bits@.take(i as int))),
            decreases n - i,
        {
            let x: bool = a.bits[i];
            let y: bool = b.bits[i];
            proof {
                lemma_value_take_next(a.bits@, i as int);
                lemma_value_take_next(b.bits@, i as int);
                lemma_value_bound(a.bits@.take(i as int));
                lemma_value_bound(b.bits@.take(i as int));
            }
            if x != y {
                res = y;
            }
            i += 1;
        }
        proof {
            assert(a.bits@.take(n as int) =~= a.bits@);
            assert(b.bits@.take(n as int) =~= b.bits@);
        }
        res
    }

    /// Whether the number is less than `other`.
    pub fn lt(&self, other: &BigNat) -> (res: bool)
        ensures
            res == (self@ < other@),
    {
        !other.le(self)
    }

    /// Quotient and remainder of the division by `d`.
    pub fn div_rem(&self, d: &BigNat) -> (qr: (BigNat, BigNat))
        requires
            d@ > 0,
        ensures
            qr.0@ == self@ / d@,
            qr.1@ == self@ % d@,
    {
        if self.lt(d) {
            proof {
                lemma_fundamental_div_mod_converse(self@ as int, d@ as int, 0, self@ as int);
            }
            return (BigNat::zero(), self.duplicate());
        }
        let mut q = BigNat::zero();
        let mut r = BigNat::zero();
        let mut i: usize = self.bits.len();
        assert(self.bits@.skip(i as int) =~= Seq::<bool>::empty());
        assert(0 == q@ * d@) by (nonlinear_arith)
            requires
                q@ == 0,
        ;
        while i > 0
            invariant
                i <= self.bits.len(),
                d@ > 0,
                bits_value(self.bits@.skip(i as int)) == q@ * d@ + r@,
                r@ < d@,
            decreases i,
        {
            i -= 1;
            let ghost q0 = q@;
            let ghost r0 = r@;
            proof {
                lemma_value_skip_prev(self.bits@, i as int);
            }
            r.shift_in(self.bits[i]);
            if d.le(&r) {
                r = r.minus(d);
                q.shift_in(true);
                assert((2 * q0 + 1) * d@ == 2 * (q0 * d@) + d@) by (nonlinear_arith);
            } else {
                q.shift_in(false);
                assert((2 * q0) * d@ == 2 * (q0 * d@)) by (nonlinear_arith);
            }
        }
        proof {
            assert(self.bits@.skip(0) =~= self.bits@);
            lemma_fundamental_div_mod_converse(self@ as int, d@ as int, q@ as int, r@ as int);
        }
        (q, r)
    }

    /// How many bits the number has.
    pub fn bit_len(&self) -> (n: usize)
        ensures
            n == bit_length(self@),
    {
        let mut i: usize = self.bits.len();
        while i > 0 && !self.bits[i - 1]
            invariant
                i <= self.bits.len(),
                forall|j: int| i <= j < self.bits.len() ==> !self.bits@[j],
            decreases i,
        {
            i -= 1;
        }
        proof {
            lemma_value_split(self.bits@, i as int);
            lemma_value_clear(self.bits@.skip(i as int));
            assert(self@ == bits_value(self.bits@.take(i as int))) by (nonlinear_arith)
                requires
                    self@ == bits_value(self.bits@.take(i as int)) + pow2(i as nat) * 0,
            ;
            if i > 0 {
                lemma_value_take_next(self.bits@, i - 1);
                lemma_value_bound(self.bits@.take(i as int));
                lemma_bit_length(self@, i as nat);
            } else {
                assert(self.bits@.take(0) =~= Seq::<bool>::empty());
            }
        }
        i
    }

    /// The number divided by two to the power `k`, rounded down.
    pub fn shr(&self, k: usize) -> (r: BigNat)
        ensures
            r@ == self@ / pow2(k as nat),
    {
        let from: usize = if k < self.bits.len() {
            k
        } else {
            self.bits.len()
        };
        let mut bits: Vec<bool> = Vec::new();
        let mut i: usize = from;
        assert(bits@ =~= self.bits@.subrange(from as int, i as int));
        while i < self.bits.len()
            invariant
                from <= i <= self.bits.len(),
                bits@ == self.bits@.subrange(from as int, i as int),
            decreases self.bits.len() - i,
        {
            bits.push(self.bits[i]);
            i += 1;
            assert(bits@ =~= self.bits@.subrange(from as int, i as int));
        }
        proof {
            assert(self.bits@.subrange(from as int, i as int) =~= self.bits@.skip(from as int));
            lemma_value_split(self.bits@, from as int);
            lemma_value_bound(self.bits@.take(from as int));
            lemma_pow2_pos(k as nat);
            let low = bits_value(self.bits@.take(from as int));
            let high = bits_value(self.bits@.skip(from as int));
            if from == k {
                assert(self@ == high * pow2(k as nat) + low) by (nonlinear_arith)
                    requires
                        self@ == low + pow2(k as nat) * high,
                ;
                lemma_fundamental_div_mod_converse(
                    self@ as int,
                    pow2(k as nat) as int,
                    high as int,
                    low as int,
                );
            } else {
                assert(self.bits@.take(from as int) =~= self.bits@);
                assert(self.bits@.skip(from as int) =~= Seq::<bool>::empty());
                if from < k {
                    vstd::arithmetic::power2::lemma_pow2_strictly_increases(from as nat, k as nat);
                }
                lemma_fundamental_div_mod_converse(
                    self@ as int,
                    pow2(k as nat) as int,
                    0,
                    self@ as int,
                );
            }
        }
        BigNat { bits }
    }

    /// The number modulo two to the power `k`: its lowest `k` bits.
    pub fn low_bits(&self, k: usize) -> (r: BigNat)
        ensures
            r@ == self@ % pow2(k as nat),
    {
        let n: usize = if k < self.bits.len() {
            k
        } else {
            self.bits.len()
        };
        let mut bits: Vec<bool> = Vec::new();
        let mut i: usize = 0;
        while i < n
            invariant
                i <= n <= self.bits.len(),
                bits@ == self.bits@.take(i as int),
            decreases n - i,
        {
            bits.push(self.bits[i]);
            assert(self.bits@.take(i + 1) =~= self.bits@.take(i as int).push(self.bits@[i as int]));
            i += 1;
        }
        proof {
            lemma_value_split(self.bits@, n as int);
            lemma_value_bound(self.bits@.take(n as int));
            lemma_pow2_pos(k as nat);
            let low = bits_value(self.bits@.take(n as int));
            let high = bits_value(self.bits@.skip(n as int));
            if n == k {
                assert(self@ == high * pow2(k as nat) + low) by (nonlinear_arith)
                    requires
                        self@ == low + pow2(k as nat) * high,
                ;
                lemma_fundamental_div_mod_converse(
                    self@ as int,
                    pow2(k as nat) as int,
                    high as int,
                    low as int,
                );
            } else {
                assert(self.bits@.take(n as int) =~= self.bits@);
                if n < k {
                    vstd::arithmetic::power2::lemma_pow2_strictly_increases(n as nat, k as nat);
                }
                lemma_fundamental_div_mod_converse(
                    self@ as int,
                    pow2(k as nat) as int,
                    0,
                    self@ as int,
                );
            }
        }
        BigNat { bits }
    }

    /// The product with `other`.
    pub fn times(&self, other: &BigNat) -> (r: BigNat)
        ensures
            r@ == self@ * other@,
    {
        let mut acc = BigNat::zero();
        let mut i: usize = other.bits.len();
        assert(other.bits@.skip(i as int) =~= Seq::<bool>::empty());
        assert(0 == self@ * 0) by (nonlinear_arith);
        while i > 0
            invariant
                i <= other.bits.len(),
                acc@ == self@ * bits_value(other.bits@.skip(i as int)),
            decreases i,
        {
            i -= 1;
            let ghost above = bits_value(other.bits@.skip(i + 1));
            proof {
                lemma_value_skip_prev(other.bits@, i as int);
            }
            acc.shift_in(false);
            if other.bits[i] {
                acc = acc.plus(self);
                assert(2 * (self@ * above) + self@ == self@ * (1 + 2 * above))
                    by (nonlinear_arith);
            } else {
                assert(2 * (self@ * above) == self@ * (2 * above)) by (nonlinear_arith);
            }
        }
        assert(other.bits@.skip(0) =~= other.bits@);
        acc
    }

    /// The number as a machine word.
    pub fn to_u64(&self) -> (x: u64)
        requires
            self@ <= u64::MAX,
        ensures
            x == self@,
    {
        let mut acc: u64 = 0;
        let mut i: usize = self.bits.len();
        assert(self.bits@.skip(i as int) =~= Seq::<bool>::empty());
        while i > 0
            invariant
                i <= self.bits.len(),
                acc == bits_value(self.bits@.skip(i as int)),
                self@ <= u64::MAX,
            decreases i,
        {
            i -= 1;
            proof {
                lemma_value_skip_prev(self.bits@, i as int);
                lemma_value_skip_le(self.bits@, i as int);
            }
            acc = 2 * acc + if self.bits[i] {
                1
            } else {
                0
            };
        }
        assert(self.bits@.skip(0) =~= self.bits@);
        acc
    }

    /// Ten times the number.
    pub fn times_ten(&self) -> (r: BigNat)
        ensures
            r@ == 10 * self@,
    {
        proof {
            lemma2_to64();
        }
        let two = self.shl(1);
        let eight = self.shl(3);
        two.plus(&eight)
    }
}

/// A number is its lowest `n` bits, and the others times two to the power `n`.
proof fn lemma_value_split(s: Seq<bool>, n: int)
    requires
        0 <= n <= s.len(),
    ensures
        bits_value(s) == bits_value(s.take(n)) + pow2(n as nat) * bits_value(s.skip(n)),
    decreases n,
{
    if n == 0 {
        assert(s.skip(0) =~= s);
        assert(s.take(0) =~= Seq::<bool>::empty());
        assert(bits_value(s.take(0)) == 0);
        lemma2_to64();
        assert(pow2(0) * bits_value(s) == bits_value(s)) by (nonlinear_arith)
            requires
                pow2(0) == 1,
        ;
    } else {
        lemma_value_split(s, n - 1);
        lemma_value_take_next(s, n - 1);
        lemma_value_skip_prev(s, n - 1);
        lemma_pow2_unfold(n as nat);
        let p = pow2((n - 1) as nat);
        let w = weigh(s[n - 1], 1);
        let v = bits_value(s.skip(n));
        assert(p * (w + 2 * v) == weigh(s[n - 1], p) + (2 * p) * v) by (nonlinear_arith)
            requires
                w == 0 && weigh(s[n - 1], p) == 0 || w == 1 && weigh(s[n - 1], p) == p,
        ;
        assert(bits_value(s.skip(n - 1)) == w + 2 * v);
        assert(pow2(n as nat) == 2 * p);
    }
}

/// `k` clear bits put before the others multiply by two to the power `k`.
proof fn lemma_value_shifted(s: Seq<bool>, k: nat)
    ensures
        bits_value(Seq::new(k, |j: int| false) + s) == bits_value(s) * pow2(k),
    decreases k,
{
    let shifted = Seq::new(k, |j: int| false) + s;
    if k == 0 {
        assert(shifted =~= s);
        lemma2_to64();
    } else {
        assert(shifted.drop_first() =~= Seq::new((k - 1) as nat, |j: int| false) + s);
        lemma_value_shifted(s, (k - 1) as nat);
        lemma_pow2_unfold(k);
        assert(2 * (bits_value(s) * pow2((k - 1) as nat)) == bits_value(s) * (2 * pow2(
            (k - 1) as nat,
        ))) by (nonlinear_arith);
    }
}

/// The lowest `i` bits denote no more than all bits.
proof fn lemma_value_low_le(s: Seq<bool>, i: int)
    requires
        0 <= i <= s.len(),
    ensures
        bits_value(s.take(i)) <= bits_value(s),
    decreases s.len() - i,
{
    if i == s.len() {
        assert(s.take(i) =~= s);
    } else {
        lemma_value_low_le(s, i + 1);
        lemma_value_take_next(s, i);
    }
}

} // verus!
