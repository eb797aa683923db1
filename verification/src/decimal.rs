//! Natural numbers of any size as decimal digits, the least significant
//! first: enough arithmetic to add up durations exactly before rounding.

use vstd::prelude::*;
use vstd::arithmetic::div_mod::lemma_fundamental_div_mod_converse;

use crate::config::{digit_value, digits_value, is_digit, lemma_front_digit, pow10};

verus! {

/// Every entry is a decimal digit.
pub open spec fn all_digits(d: Seq<u8>) -> bool {
    forall|i: int| 0 <= i < d.len() ==> #[trigger] d[i] < 10
}

/// The number the digits write, the first one counting ones.
pub open spec fn value(d: Seq<u8>) -> nat
    decreases d.len(),
{
    if d.len() == 0 {
        0
    } else {
        value(d.drop_last()) + (d.last() as nat) * pow10((d.len() - 1) as nat)
    }
}

pub proof fn lemma_pow10_add(a: nat, b: nat)
    ensures
        pow10(a + b) == pow10(a) * pow10(b),
        pow10(a) >= 1,
    decreases a,
{
    if a == 0 {
        assert(pow10(0) == 1);
        assert(a + b == b);
    } else {
        lemma_pow10_add((a - 1) as nat, b);
        let p = pow10((a - 1) as nat);
        let q = pow10(b);
        assert(pow10(a) == 10 * p);
        assert(((a + b) - 1) as nat == ((a - 1) as nat + b) as nat);
        assert(pow10(a + b) == 10 * pow10(((a - 1) as nat + b) as nat));
        assert(10 * (p * q) == (10 * p) * q) by (nonlinear_arith);
    }
}

proof fn lemma_value_push(d: Seq<u8>, x: u8)
    ensures
        value(d.push(x)) == value(d) + x * pow10(d.len()),
{
    assert(d.push(x).drop_last() =~= d);
}

/// Digits fall short of the next power of ten.
proof fn lemma_value_bound(d: Seq<u8>)
    requires
        all_digits(d),
    ensures
        value(d) < pow10(d.len()),
    decreases d.len(),
{
    if d.len() > 0 {
        let dl = d.drop_last();
        lemma_value_bound(dl);
        let p = pow10(dl.len());
        assert(d.last() < 10);
        assert(value(dl) + d.last() * p < 10 * p) by (nonlinear_arith)
            requires value(dl) < p, d.last() < 10;
    }
}

/// The low `j` digits and the rest.
proof fn lemma_value_split(d: Seq<u8>, j: int)
    requires
        0 <= j <= d.len(),
    ensures
        value(d) == value(d.take(j)) + value(d.skip(j)) * pow10(j as nat),
    decreases d.len(),
{
    if j == d.len() {
        assert(d.take(j) =~= d);
        assert(d.skip(j).len() == 0);
        assert(value(d.skip(j)) == 0);
        assert(value(d.skip(j)) * pow10(j as nat) == 0);
    } else {
        let dl = d.drop_last();
        lemma_value_split(dl, j);
        assert(dl.take(j) =~= d.take(j));
        assert(d.skip(j) =~= dl.skip(j).push(d.last()));
        lemma_value_push(dl.skip(j), d.last());
        let m = (d.len() - 1 - j) as nat;
        assert(dl.skip(j).len() == m);
        lemma_pow10_add(m, j as nat);
        assert((m + j) as nat == (d.len() - 1) as nat);
        let x = d.last() as nat;
        let low = value(d.take(j));
        let high = value(dl.skip(j));
        assert(value(d) == low + high * pow10(j as nat) + x * pow10((d.len() - 1) as nat));
        let pm = pow10(m);
        let pj = pow10(j as nat);
        assert(value(d.skip(j)) == high + x * pm);
        assert(pm * pj == pow10((d.len() - 1) as nat));
        assert((high + x * pm) * pj == high * pj + x * (pm * pj)) by (nonlinear_arith);
        assert(value(d.skip(j)) * pj == high * pj + x * pow10((d.len() - 1) as nat));
    }
}

/// `a` with zeros added at the top until it is `n` digits long.
pub fn padded(a: &Vec<u8>, n: usize) -> (r: Vec<u8>)
    requires
        all_digits(a@),
        a@.len() <= n,
    ensures
        all_digits(r@),
        r@.len() == n,
        value(r@) == value(a@),
{
    let mut r: Vec<u8> = Vec::new();
    let mut i: usize = 0;
    while i < a.len()
        invariant
            i <= a@.len(),
            r@ == a@.take(i as int),
        decreases a@.len() - i,
    {
        r.push(a[i]);
        assert(a@.take(i + 1) =~= a@.take(i as int).push(a@[i as int]));
        i += 1;
    }
    assert(a@.take(a@.len() as int) =~= a@);
    while i < n
        invariant
            a@.len() <= i <= n,
            r@.len() == i,
            all_digits(r@),
            value(r@) == value(a@),
        decreases n - i,
    {
        proof {
            lemma_value_push(r@, 0);
        }
        r.push(0);
        i += 1;
    }
    r
}

/// The sum of two numbers, digit by digit with a carry.
pub fn sum(a: &Vec<u8>, b: &Vec<u8>) -> (r: Vec<u8>)
    requires
        all_digits(a@),
        all_digits(b@),
    ensures
        all_digits(r@),
        value(r@) == value(a@) + value(b@),
        r@.len() == if a@.len() < b@.len() { b@.len() + 1 } else { a@.len() + 1 },
{
    let n = if a.len() < b.len() { b.len() } else { a.len() };
    let x = padded(a, n);
    let y = padded(b, n);
    let mut r: Vec<u8> = Vec::new();
    let mut carry: u8 = 0;
    let mut i: usize = 0;
    while i < n
        invariant
            i <= n,
            x@.len() == n,
            y@.len() == n,
            all_digits(x@),
            all_digits(y@),
            all_digits(r@),
            r@.len() == i,
            carry <= 1,
            value(r@) + carry * pow10(i as nat) == value(x@.take(i as int)) + value(y@.take(i as int)),
        decreases n - i,
    {
        let s: u8 = x[i] + y[i] + carry;
        assert(x@.take(i + 1) =~= x@.take(i as int).push(x@[i as int]));
        assert(y@.take(i + 1) =~= y@.take(i as int).push(y@[i as int]));
        proof {
            lemma_value_push(x@.take(i as int), x@[i as int]);
            lemma_value_push(y@.take(i as int), y@[i as int]);
            lemma_value_push(r@, s % 10);
            let p = pow10(i as nat);
            assert(pow10((i + 1) as nat) == 10 * p);
            assert((s % 10) as int * p + (s / 10) as int * (10 * p) == s as int * p) by (nonlinear_arith)
                requires s == 10 * (s / 10) + s % 10;
            assert(s as int * p == carry * p + x@[i as int] * p + y@[i as int] * p) by (nonlinear_arith)
                requires s == x@[i as int] + y@[i as int] + carry;
        }
        r.push(s % 10);
        carry = s / 10;
        i += 1;
    }
    proof {
        lemma_value_push(r@, carry);
    }
    r.push(carry);
    assert(x@.take(n as int) =~= x@);
    assert(y@.take(n as int) =~= y@);
    r
}

/// `a` taken `c` times.
fn times(a: &Vec<u8>, c: u64) -> (r: Vec<u8>)
    requires
        all_digits(a@),
        1 <= c <= 36,
    ensures
        all_digits(r@),
        value(r@) == value(a@) * c,
        a@.len() <= r@.len(),
{
    let mut r = padded(a, a.len());
    let mut i: u64 = 1;
    while i < c
        invariant
            1 <= i <= c <= 36,
            all_digits(a@),
            all_digits(r@),
            a@.len() <= r@.len(),
            value(r@) == value(a@) * i,
        decreases c - i,
    {
        r = sum(&r, a);
        assert(value(a@) * i + value(a@) == value(a@) * (i + 1)) by (nonlinear_arith);
        i += 1;
    }
    r
}

/// The digits of `whole` then `fraction`, as one number, times
/// `c · 10^(low + more)`.
pub fn scaled(whole: &Vec<char>, fraction: &Vec<char>, c: u64, low: usize, more: usize) -> (r: Vec<u8>)
    requires
        forall|j: int| 0 <= j < whole@.len() ==> is_digit(#[trigger] whole@[j]),
        forall|j: int| 0 <= j < fraction@.len() ==> is_digit(#[trigger] fraction@[j]),
        1 <= c <= 36,
        whole@.len() + fraction@.len() <= usize::MAX,
    ensures
        all_digits(r@),
        value(r@) == digits_value(whole@ + fraction@) * pow10((low + more) as nat) * c,
        r@.len() >= low + more + whole@.len() + fraction@.len(),
{
    let ghost number = whole@ + fraction@;
    let ghost zeros: nat = (low + more) as nat;
    let mut base: Vec<u8> = Vec::new();
    while base.len() < low
        invariant
            base@.len() <= low,
            all_digits(base@),
            value(base@) == 0,
        decreases low - base@.len(),
    {
        proof {
            lemma_value_push(base@, 0);
        }
        base.push(0);
    }
    let mut m: usize = 0;
    while m < more
        invariant
            m <= more,
            base@.len() == low + m,
            all_digits(base@),
            value(base@) == 0,
        decreases more - m,
    {
        proof {
            lemma_value_push(base@, 0);
        }
        base.push(0);
        m += 1;
    }
    let w = whole.len();
    let mut j: usize = w + fraction.len();
    assert(number.skip(number.len() as int) =~= Seq::<char>::empty());
    assert(digits_value(Seq::<char>::empty()) == 0);
    while j > 0
        invariant
            j <= number.len(),
            number == whole@ + fraction@,
            number.len() == w + fraction@.len(),
            w == whole@.len(),
            forall|k: int| 0 <= k < number.len() ==> is_digit(#[trigger] number[k]),
            all_digits(base@),
            zeros == low + more,
            base@.len() == zeros + (number.len() - j),
            value(base@) == digits_value(number.skip(j as int)) * pow10(zeros),
        decreases j,
    {
        j -= 1;
        let ch = if j >= w { fraction[j - w] } else { whole[j] };
        assert(ch == number[j as int]);
        assert(is_digit(ch));
        let d = (ch as u32 - '0' as u32) as u8;
        proof {
            let s = number.skip(j as int);
            lemma_front_digit(s);
            assert(s.skip(1) =~= number.skip(j + 1));
            assert(s[0] == ch);
            assert(digit_value(ch) == d);
            let m = (number.len() - j - 1) as nat;
            assert(s.len() - 1 == m);
            lemma_value_push(base@, d);
            lemma_pow10_add(zeros, m);
            let pz = pow10(zeros);
            let pm = pow10(m);
            let rest = digits_value(number.skip(j + 1));
            assert((d * pm + rest) * pz == rest * pz + d * (pz * pm)) by (nonlinear_arith);
        }
        base.push(d);
    }
    assert(number.skip(0) =~= number);
    times(&base, c)
}

/// Half of `p` or more left over rounds up.
proof fn lemma_round(q: nat, r: nat, p: nat)
    requires
        p >= 1,
        r < p,
    ensures
        (2 * (q * p + r) + p) / (2 * p) == q + if 2 * r >= p { 1nat } else { 0nat },
{
    let x = 2 * (q * p + r) + p;
    if 2 * r >= p {
        assert(x == (q + 1) * (2 * p) + (2 * r - p)) by (nonlinear_arith)
            requires x == 2 * (q * p + r) + p;
        lemma_fundamental_div_mod_converse(x as int, (2 * p) as int, (q + 1) as int, (2 * r - p) as int);
    } else {
        assert(x == q * (2 * p) + (2 * r + p)) by (nonlinear_arith)
            requires x == 2 * (q * p + r) + p;
        lemma_fundamental_div_mod_converse(x as int, (2 * p) as int, q as int, (2 * r + p) as int);
    }
}

/// `n` in units of `10^-p`, rounded to the nearest whole unit, a half up.
pub open spec fn rounded(n: nat, p: nat) -> nat {
    (2 * n + pow10(p)) / (2 * pow10(p))
}

/// The digits' number divided by `10^p` and rounded, a half up, with the
/// digits above the `p` lowest read out as a whole number.
pub proof fn lemma_rounded_parts(d: Seq<u8>, p: int)
    requires
        all_digits(d),
        0 <= p <= d.len(),
    ensures
        rounded(value(d), p as nat) == value(d.skip(p)) + if p >= 1 && d[p - 1] >= 5 { 1nat } else { 0nat },
{
    lemma_value_split(d, p);
    let low = d.take(p);
    lemma_value_bound(low);
    lemma_pow10_add(0, p as nat);
    let big = pow10(p as nat);
    if p >= 1 {
        let below = d.take(p - 1);
        assert(low =~= below.push(d[p - 1]));
        lemma_value_push(below, d[p - 1]);
        lemma_value_bound(below);
        let small = pow10((p - 1) as nat);
        assert(big == 10 * small);
        let x = d[p - 1] as nat;
        if x >= 5 {
            assert(2 * value(low) >= big) by (nonlinear_arith)
                requires value(low) == value(below) + x * small, x >= 5, big == 10 * small;
        } else {
            assert(2 * value(low) < big) by (nonlinear_arith)
                requires value(low) == value(below) + x * small, x <= 4, value(below) < small, big == 10 * small;
        }
    } else {
        assert(low.len() == 0);
        assert(value(low) == 0);
    }
    lemma_round(value(d.skip(p)), value(low), big);
    assert(value(d) == value(d.skip(p)) * big + value(low)) by (nonlinear_arith)
        requires value(d) == value(low) + value(d.skip(p)) * big;
}

/// Reading the digits from the top down: the lowest one, then ten times
/// the rest.
pub proof fn lemma_value_front(d: Seq<u8>)
    requires
        d.len() >= 1,
    ensures
        value(d) == d[0] + value(d.skip(1)) * 10,
{
    lemma_value_split(d, 1);
    let one = d.take(1);
    assert(one.drop_last() =~= Seq::<u8>::empty());
    assert(value(one.drop_last()) == 0);
    assert(one.last() == d[0]);
    assert(pow10(0) == 1);
    assert(pow10(1) == 10);
    assert(one.len() == 1);
    let x = d[0] as nat;
    assert(value(one) == value(one.drop_last()) + (one.last() as nat) * pow10(0));
    assert(value(one) == x * pow10(0));
    assert(value(one) == x) by (nonlinear_arith)
        requires value(one) == x * pow10(0), pow10(0) == 1;
}

} // verus!
