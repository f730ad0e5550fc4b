use vstd::prelude::*;

verus! {

/// Two to the power 64.
pub const HALF: u128 = 0x1_0000_0000_0000_0000;

/// The base in which a wide number is written: two to the power 128.
pub open spec fn radix() -> nat {
    0x1_0000_0000_0000_0000_0000_0000_0000_0000nat
}

/// The weight of digit `n` of a wide number: its base to the power `n`.
pub open spec fn weight(n: nat) -> nat
    decreases n,
{
    if n == 0 {
        1
    } else {
        radix() * weight((n - 1) as nat)
    }
}

/// The natural number that `digits` stand for, the lowest digit first.
pub open spec fn wide_value(digits: Seq<u128>) -> nat
    decreases digits.len(),
{
    if digits.len() == 0 {
        0
    } else {
        wide_value(digits.drop_last()) + (digits.last() as nat) * weight(
            (digits.len() - 1) as nat,
        )
    }
}

/// A wide number is smaller than the weight of the digit after its last one.
pub proof fn lemma_wide_value_bound(digits: Seq<u128>)
    ensures
        wide_value(digits) < weight(digits.len()),
    decreases digits.len(),
{
    if digits.len() > 0 {
        let n = (digits.len() - 1) as nat;
        lemma_wide_value_bound(digits.drop_last());
        let top = digits.last() as nat;
        let w = weight(n);
        assert(top * w + w <= radix() * w) by (nonlinear_arith)
            requires
                top + 1 <= radix(),
        ;
    }
}

/// Of two wide numbers of one length, the one with the greater last digit
/// is the greater.
pub proof fn lemma_last_digit_decides(a: Seq<u128>, b: Seq<u128>)
    requires
        a.len() == b.len(),
        a.len() > 0,
        a.last() > b.last(),
    ensures
        wide_value(a) > wide_value(b),
{
    let n = (a.len() - 1) as nat;
    lemma_wide_value_bound(b.drop_last());
    let w = weight(n);
    let x = a.last() as nat;
    let y = b.last() as nat;
    assert(x * w >= y * w + w) by (nonlinear_arith)
        requires
            x >= y + 1,
    ;
}

/// `a * b + c` as a number of two digits: the high digit and the low one.
pub fn mul_add(a: u128, b: u128, c: u128) -> (r: (u128, u128))
    ensures
        r.0 * radix() + r.1 == a * b + c,
{
    let a1: u128 = a / HALF;
    let a0: u128 = a % HALF;
    let b1: u128 = b / HALF;
    let b0: u128 = b % HALF;
    let ghost k: int = HALF as int;
    assert(a0 * b0 <= (k - 1) * (k - 1) && a0 * b1 <= (k - 1) * (k - 1) && a1 * b0 <= (k - 1) * (k
        - 1) && a1 * b1 <= (k - 1) * (k - 1)) by (nonlinear_arith)
        requires
            0 <= a0 <= k - 1,
            0 <= a1 <= k - 1,
            0 <= b0 <= k - 1,
            0 <= b1 <= k - 1,
    ;
    assert((k - 1) * (k - 1) == 0xffff_ffff_ffff_fffe_0000_0000_0000_0001int) by (nonlinear_arith)
        requires
            k == 0x1_0000_0000_0000_0000int,
    ;
    let p00: u128 = a0 * b0;
    let p01: u128 = a0 * b1;
    let p10: u128 = a1 * b0;
    let p11: u128 = a1 * b1;
    assert(a * b == p11 * (k * k) + (p01 + p10) * k + p00) by (nonlinear_arith)
        requires
            a == a1 * k + a0,
            b == b1 * k + b0,
            p00 == a0 * b0,
            p01 == a0 * b1,
            p10 == a1 * b0,
            p11 == a1 * b1,
    ;
    assert(k * k == radix()) by (nonlinear_arith)
        requires
            k == 0x1_0000_0000_0000_0000int,
            radix() == 0x1_0000_0000_0000_0000_0000_0000_0000_0000int,
    ;
    let t: u128 = p00 + c % HALF;
    let u: u128 = p01 + t / HALF + c / HALF;
    let v: u128 = p10 + u % HALF;
    let lo: u128 = (v % HALF) * HALF + t % HALF;
    let hi: u128 = p11 + u / HALF + v / HALF;
    assert(hi * (k * k) + lo == p11 * (k * k) + (p01 + p10) * k + p00 + c) by (nonlinear_arith)
        requires
            t == p00 + c % (k as u128),
            u == p01 + t / (k as u128) + c / (k as u128),
            v == p10 + u % (k as u128),
            lo == (v % (k as u128)) * k + t % (k as u128),
            hi == p11 + u / (k as u128) + v / (k as u128),
            k == 0x1_0000_0000_0000_0000int,
    ;
    (hi, lo)
}

/// The product of a wide number and `m`, with one digit more.
pub fn scale(digits: &Vec<u128>, m: u128) -> (out: Vec<u128>)
    ensures
        out@.len() == digits@.len() + 1,
        wide_value(out@) == wide_value(digits@) * m,
{
    let mut out: Vec<u128> = Vec::new();
    let mut carry: u128 = 0;
    let mut i: usize = 0;
    assert(digits@.take(0) =~= Seq::<u128>::empty());
    assert(wide_value(digits@.take(0)) * m == 0) by (nonlinear_arith)
        requires
            wide_value(digits@.take(0)) == 0,
    ;
    while i < digits.len()
        invariant
            i <= digits@.len(),
            out@.len() == i,
            wide_value(out@) + carry * weight(i as nat) == wide_value(digits@.take(i as int)) * m,
        decreases digits@.len() - i,
    {
        let (hi, lo) = mul_add(digits[i], m, carry);
        let ghost before = out@;
        out.push(lo);
        proof {
            assert(out@.drop_last() =~= before);
            assert(digits@.take(i + 1).drop_last() =~= digits@.take(i as int));
            let w = weight(i as nat);
            let d = digits@[i as int] as nat;
            let low = wide_value(digits@.take(i as int));
            assert(weight((i + 1) as nat) == radix() * w);
            assert(wide_value(before) + lo * w + hi * (radix() * w) == (low + d * w) * m)
                by (nonlinear_arith)
                requires
                    wide_value(before) + carry * w == low * m,
                    hi * radix() + lo == d * m + carry,
            ;
        }
        carry = hi;
        i += 1;
    }
    let ghost before = out@;
    out.push(carry);
    assert(out@.drop_last() =~= before);
    assert(digits@.take(i as int) =~= digits@);
    out
}

/// Whether the wide number `a` is greater than the wide number `b` of the
/// same length.
pub fn wide_greater(a: &Vec<u128>, b: &Vec<u128>) -> (r: bool)
    requires
        a@.len() == b@.len(),
    ensures
        r == (wide_value(a@) > wide_value(b@)),
{
    let mut i: usize = a.len();
    assert(a@.take(i as int) =~= a@);
    assert(b@.take(i as int) =~= b@);
    while i > 0
        invariant
            i <= a@.len(),
            a@.len() == b@.len(),
            wide_value(a@) - wide_value(b@) == wide_value(a@.take(i as int)) - wide_value(
                b@.take(i as int),
            ),
        decreases i,
    {
        let ghost upper_a = a@.take(i as int);
        let ghost upper_b = b@.take(i as int);
        assert(upper_a.drop_last() =~= a@.take(i - 1));
        assert(upper_b.drop_last() =~= b@.take(i - 1));
        if a[i - 1] > b[i - 1] {
            proof {
                lemma_last_digit_decides(upper_a, upper_b);
            }
            return true;
        }
        if a[i - 1] < b[i - 1] {
            proof {
                lemma_last_digit_decides(upper_b, upper_a);
            }
            return false;
        }
        i -= 1;
    }
    false
}

/// The product of four numbers, as a wide number of four digits.
pub fn product(f1: u128, f2: u128, f3: u128, f4: u128) -> (out: Vec<u128>)
    ensures
        out@.len() == 4,
        wide_value(out@) == f1 * f2 * f3 * f4,
{
    let mut one: Vec<u128> = Vec::new();
    one.push(f1);
    assert(one@.drop_last() =~= Seq::<u128>::empty());
    assert(wide_value(one@) == f1) by {
        assert(wide_value(one@.drop_last()) == 0);
        assert(weight(0) == 1);
        assert(f1 * 1 == f1) by (nonlinear_arith);
    }
    let two = scale(&one, f2);
    let three = scale(&two, f3);
    scale(&three, f4)
}

} // verus!
