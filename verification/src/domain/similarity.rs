use vstd::prelude::*;
use crate::domain::ranking::Ranked;
use crate::domain::wide::{product, wide_greater};

verus! {

/// The sum of the first `n` entries of a vector.
pub open spec fn total_upto(v: Seq<u64>, n: nat) -> nat
    decreases n,
{
    if n == 0 {
        0
    } else {
        total_upto(v, (n - 1) as nat) + (v[n - 1] as nat)
    }
}

/// The sum of the entries of a vector.
pub open spec fn total(v: Seq<u64>) -> nat {
    total_upto(v, v.len())
}

/// The sum of the products of the first `n` entries of two vectors, entry by
/// entry.
pub open spec fn dot_upto(a: Seq<u64>, b: Seq<u64>, n: nat) -> nat
    decreases n,
{
    if n == 0 {
        0
    } else {
        dot_upto(a, b, (n - 1) as nat) + (a[n - 1] as nat) * (b[n - 1] as nat)
    }
}

/// The dot product of two vectors, over the entries that both have.
pub open spec fn dot(a: Seq<u64>, b: Seq<u64>) -> nat {
    dot_upto(a, b, if a.len() <= b.len() { a.len() } else { b.len() })
}

/// The cosine of the angle between two vectors of counts, kept exact: it is
/// `dot` divided by the square root of `left * right`, where `dot` is the dot
/// product of the two and `left` and `right` are the squares of their
/// lengths. Where a vector has length zero the cosine is defined as zero.
#[derive(Clone, Copy, Debug, PartialEq, Eq, Structural)]
pub struct Similarity {
    pub dot: u128,
    pub left: u128,
    pub right: u128,
}

/// The similarity of two vectors.
pub open spec fn similarity(a: Seq<u64>, b: Seq<u64>) -> Similarity {
    Similarity { dot: dot(a, b) as u128, left: dot(a, a) as u128, right: dot(b, b) as u128 }
}

impl Similarity {
    /// The cosine is zero.
    pub open spec fn is_zero(&self) -> bool {
        self.dot == 0 || self.left == 0 || self.right == 0
    }

    /// The cosine is one.
    pub open spec fn is_one(&self) -> bool {
        !self.is_zero() && self.dot * self.dot == self.left * self.right
    }

    /// The numerator of the square of the cosine.
    pub open spec fn square_over(&self) -> nat {
        if self.is_zero() {
            0
        } else {
            (self.dot * self.dot) as nat
        }
    }

    /// The denominator of the square of the cosine; it is not zero.
    pub open spec fn square_under(&self) -> nat {
        if self.is_zero() {
            1
        } else {
            (self.left * self.right) as nat
        }
    }

    /// Whether the cosine is zero.
    pub fn zero(&self) -> (b: bool)
        ensures
            b == self.is_zero(),
    {
        self.dot == 0 || self.left == 0 || self.right == 0
    }
}

impl Ranked for Similarity {
    /// The greater cosine ranks above the smaller. No cosine is negative, so
    /// their squares are compared, as fractions.
    open spec fn above(&self, other: &Self) -> bool {
        self.square_over() * other.square_under() > other.square_over() * self.square_under()
    }

    fn is_above(&self, other: &Self) -> (b: bool) {
        if self.zero() {
            false
        } else if other.zero() {
            assert(self.dot * self.dot > 0) by (nonlinear_arith)
                requires
                    self.dot > 0,
            ;
            true
        } else {
            let ours = product(self.dot, self.dot, other.left, other.right);
            let theirs = product(other.dot, other.dot, self.left, self.right);
            assert(self.dot * self.dot * other.left * other.right == (self.dot * self.dot) * (
            other.left * other.right)) by (nonlinear_arith);
            assert(other.dot * other.dot * self.left * self.right == (other.dot * other.dot) * (
            self.left * self.right)) by (nonlinear_arith);
            wide_greater(&ours, &theirs)
        }
    }

    proof fn order_laws(a: &Self, b: &Self, c: &Self) {
        let xa = a.square_over();
        let ya = a.square_under();
        let xb = b.square_over();
        let yb = b.square_under();
        let xc = c.square_over();
        let yc = c.square_under();
        assert(ya > 0 && yb > 0 && yc > 0) by {
            lemma_under_positive(*a);
            lemma_under_positive(*b);
            lemma_under_positive(*c);
        }
        if !a.above(b) && !b.above(c) && a.above(c) {
            assert(false) by (nonlinear_arith)
                requires
                    xa * yb <= xb * ya,
                    xb * yc <= xc * yb,
                    xa * yc > xc * ya,
                    ya > 0,
                    yb > 0,
                    yc > 0,
                    xa >= 0,
                    xb >= 0,
                    xc >= 0,
            ;
        }
    }
}

/// The denominator of the square of a cosine is positive.
pub proof fn lemma_under_positive(s: Similarity)
    ensures
        s.square_under() > 0,
{
    if !s.is_zero() {
        assert(s.left * s.right > 0) by (nonlinear_arith)
            requires
                s.left > 0,
                s.right > 0,
        ;
    }
}

/// The sum of a part of a vector is at most the sum of all of it.
pub proof fn lemma_total_upto_grows(v: Seq<u64>, m: nat, n: nat)
    requires
        m <= n <= v.len(),
    ensures
        total_upto(v, m) <= total_upto(v, n),
    decreases n,
{
    if m < n {
        lemma_total_upto_grows(v, m, (n - 1) as nat);
    }
}

/// A dot product is at most the product of the two sums of entries.
pub proof fn lemma_dot_upto_bound(a: Seq<u64>, b: Seq<u64>, n: nat)
    requires
        n <= a.len(),
        n <= b.len(),
    ensures
        dot_upto(a, b, n) <= total_upto(a, n) * total_upto(b, n),
    decreases n,
{
    if n > 0 {
        let m = (n - 1) as nat;
        lemma_dot_upto_bound(a, b, m);
        let d = dot_upto(a, b, m);
        let ta = total_upto(a, m);
        let tb = total_upto(b, m);
        let x = a[n - 1] as nat;
        let y = b[n - 1] as nat;
        assert(d + x * y <= (ta + x) * (tb + y)) by (nonlinear_arith)
            requires
                d <= ta * tb,
        ;
    } else {
        assert(total_upto(a, 0) * total_upto(b, 0) == 0) by (nonlinear_arith)
            requires
                total_upto(a, 0) == 0,
        ;
    }
}

/// A dot product of vectors whose sums of entries fit into 64 bits fits
/// into 128 bits.
pub proof fn lemma_dot_fits(a: Seq<u64>, b: Seq<u64>, n: nat)
    requires
        n <= a.len(),
        n <= b.len(),
        total(a) <= u64::MAX,
        total(b) <= u64::MAX,
    ensures
        dot_upto(a, b, n) <= 0xffff_ffff_ffff_fffe_0000_0000_0000_0001,
{
    lemma_dot_upto_bound(a, b, n);
    lemma_total_upto_grows(a, n, a.len());
    lemma_total_upto_grows(b, n, b.len());
    let ta = total_upto(a, n);
    let tb = total_upto(b, n);
    assert(ta * tb <= 0xffff_ffff_ffff_fffe_0000_0000_0000_0001) by (nonlinear_arith)
        requires
            ta <= 0xffff_ffff_ffff_ffff,
            tb <= 0xffff_ffff_ffff_ffff,
    ;
}

/// The dot product of two vectors whose sums of entries fit into 64 bits.
pub fn dot_product(a: &Vec<u64>, b: &Vec<u64>) -> (d: u128)
    requires
        total(a@) <= u64::MAX,
        total(b@) <= u64::MAX,
    ensures
        d == dot(a@, b@),
{
    let n = if a.len() <= b.len() {
        a.len()
    } else {
        b.len()
    };
    let mut d: u128 = 0;
    let mut i: usize = 0;
    while i < n
        invariant
            i <= n,
            n <= a@.len(),
            n <= b@.len(),
            total(a@) <= u64::MAX,
            total(b@) <= u64::MAX,
            d == dot_upto(a@, b@, i as nat),
        decreases n - i,
    {
        proof {
            lemma_dot_fits(a@, b@, (i + 1) as nat);
        }
        let x: u128 = a[i] as u128;
        let y: u128 = b[i] as u128;
        assert(x * y <= 0xffff_ffff_ffff_fffe_0000_0000_0000_0001) by (nonlinear_arith)
            requires
                x <= 0xffff_ffff_ffff_ffff,
                y <= 0xffff_ffff_ffff_ffff,
        ;
        d = d + x * y;
        i += 1;
    }
    d
}

/// The similarity of two vectors whose sums of entries fit into 64 bits.
pub fn cosine_similarity(a: &Vec<u64>, b: &Vec<u64>) -> (s: Similarity)
    requires
        total(a@) <= u64::MAX,
        total(b@) <= u64::MAX,
    ensures
        s == similarity(a@, b@),
{
    Similarity { dot: dot_product(a, b), left: dot_product(a, a), right: dot_product(b, b) }
}

/// The vector `v` with each entry multiplied by `k`.
pub open spec fn scaled(v: Seq<u64>, k: nat) -> Seq<u64> {
    Seq::new(v.len(), |i: int| (v[i] * k) as u64)
}

/// The sum of the entries of a scaled vector is the scaled sum.
pub proof fn lemma_total_of_scaled(v: Seq<u64>, k: nat, n: nat)
    requires
        n <= v.len(),
        total(v) * k <= u64::MAX,
    ensures
        total_upto(scaled(v, k), n) == total_upto(v, n) * k,
    decreases n,
{
    if n > 0 {
        let m = (n - 1) as nat;
        lemma_total_of_scaled(v, k, m);
        lemma_total_upto_grows(v, n, v.len());
        let x = v[n - 1] as nat;
        let t = total_upto(v, m);
        let whole = total(v);
        assert(x * k <= whole * k && (t + x) * k == t * k + x * k) by (nonlinear_arith)
            requires
                x <= whole,
                t + x <= whole,
        ;
    } else {
        assert(total_upto(v, 0) * k == 0) by (nonlinear_arith)
            requires
                total_upto(v, 0) == 0,
        ;
    }
}

/// The dot product with a scaled vector is the scaled dot product.
pub proof fn lemma_dot_of_scaled(a: Seq<u64>, b: Seq<u64>, k: nat, n: nat)
    requires
        n <= a.len(),
        n <= b.len(),
        total(a) * k <= u64::MAX,
    ensures
        dot_upto(scaled(a, k), b, n) == dot_upto(a, b, n) * k,
        dot_upto(b, scaled(a, k), n) == dot_upto(b, a, n) * k,
    decreases n,
{
    if n > 0 {
        let m = (n - 1) as nat;
        lemma_dot_of_scaled(a, b, k, m);
        lemma_total_upto_grows(a, n, a.len());
        let x = a[n - 1] as nat;
        let y = b[n - 1] as nat;
        let whole = total(a);
        let d = dot_upto(a, b, m);
        let e = dot_upto(b, a, m);
        assert(x * k <= whole * k) by (nonlinear_arith)
            requires
                x <= whole,
        ;
        assert((d + x * y) * k == d * k + (x * k) * y && (e + y * x) * k == e * k + y * (x * k))
            by (nonlinear_arith);
    } else {
        assert(dot_upto(a, b, 0) * k == 0 && dot_upto(b, a, 0) * k == 0) by (nonlinear_arith)
            requires
                dot_upto(a, b, 0) == 0,
                dot_upto(b, a, 0) == 0,
        ;
    }
}

/// Only the direction of a vector counts: a vector and the same vector with
/// each entry multiplied by `k` are equally similar to any other vector. So
/// a vector of counts stands for the vector of length one that points the
/// same way.
pub proof fn lemma_similarity_ignores_scale(a: Seq<u64>, b: Seq<u64>, k: nat)
    requires
        k >= 1,
        total(a) * k <= u64::MAX,
        total(b) <= u64::MAX,
    ensures
        !similarity(scaled(a, k), b).above(&similarity(a, b)),
        !similarity(a, b).above(&similarity(scaled(a, k), b)),
{
    let longer = scaled(a, k);
    let n = if a.len() <= b.len() {
        a.len()
    } else {
        b.len()
    };
    assert(total(a) <= total(a) * k) by (nonlinear_arith)
        requires
            k >= 1,
    ;
    lemma_total_of_scaled(a, k, a.len());
    lemma_dot_of_scaled(a, b, k, n);
    lemma_dot_of_scaled(a, a, k, a.len());
    lemma_dot_of_scaled(a, longer, k, a.len());
    lemma_dot_fits(a, b, n);
    lemma_dot_fits(a, a, a.len());
    lemma_dot_fits(b, b, b.len());
    lemma_dot_fits(longer, b, n);
    lemma_dot_fits(longer, longer, a.len());
    let d = dot(a, b);
    let left = dot(a, a);
    let right = dot(b, b);
    assert(dot(longer, b) == d * k);
    assert(dot(longer, longer) == left * k * k);
    let one = similarity(a, b);
    let other = similarity(longer, b);
    assert(other.dot == d * k && other.left == left * k * k && other.right == right);
    assert(one.is_zero() == other.is_zero()) by (nonlinear_arith)
        requires
            k >= 1,
            one.dot == d,
            one.left == left,
            one.right == right,
            other.dot == d * k,
            other.left == left * k * k,
            other.right == right,
            one.is_zero() == (one.dot == 0 || one.left == 0 || one.right == 0),
            other.is_zero() == (other.dot == 0 || other.left == 0 || other.right == 0),
    ;
    if !one.is_zero() {
        assert(((d * k) * (d * k)) * (left * right) == (d * d) * ((left * k * k) * right))
            by (nonlinear_arith);
    }
}

/// A vector that is not zero has similarity one to itself.
pub proof fn lemma_similarity_to_itself(v: Seq<u64>)
    requires
        total(v) <= u64::MAX,
        dot(v, v) > 0,
    ensures
        similarity(v, v).is_one(),
{
    lemma_dot_fits(v, v, v.len());
}

/// Every vector has similarity zero to a vector of zeros.
pub proof fn lemma_similarity_to_zero(v: Seq<u64>, zero: Seq<u64>)
    requires
        forall|i: int| 0 <= i < zero.len() ==> zero[i] == 0,
    ensures
        similarity(v, zero).is_zero(),
        similarity(zero, v).is_zero(),
{
    lemma_dot_of_zero(zero, zero.len());
}

/// The dot product of a vector of zeros with itself is zero.
pub proof fn lemma_dot_of_zero(zero: Seq<u64>, n: nat)
    requires
        n <= zero.len(),
        forall|i: int| 0 <= i < zero.len() ==> zero[i] == 0,
    ensures
        dot_upto(zero, zero, n) == 0,
    decreases n,
{
    if n > 0 {
        lemma_dot_of_zero(zero, (n - 1) as nat);
        assert(zero[n - 1] * zero[n - 1] == 0) by (nonlinear_arith)
            requires
                zero[n - 1] == 0,
        ;
    }
}

} // verus!
