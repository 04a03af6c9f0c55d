//! Whole numbers of any size, digit by decimal digit.
use crate::text;
use vstd::arithmetic::power::*;
use vstd::arithmetic::power2::*;
use vstd::prelude::*;

verus! {

/// The number that decimal digits write, the lowest digit first.
pub open spec fn low_first(d: Seq<u8>) -> nat
    decreases d.len(),
{
    if d.len() == 0 {
        0
    } else {
        d[0] as nat + 10 * low_first(d.skip(1))
    }
}

/// Digits, the highest of them not a zero unless it stands alone.
pub open spec fn canonical(d: Seq<u8>) -> bool {
    &&& d.len() > 0
    &&& forall|i: int| 0 <= i < d.len() ==> #[trigger] d[i] < 10
    &&& d.len() > 1 ==> d.last() > 0
}

/// The digits as characters, the highest first.
pub open spec fn written(d: Seq<u8>) -> Seq<char> {
    Seq::new(d.len(), |i: int| text::digit(d[d.len() - 1 - i] as nat))
}

pub proof fn lemma_positive(d: Seq<u8>)
    requires
        d.len() > 0,
        d.last() > 0,
    ensures
        low_first(d) > 0,
    decreases d.len(),
{
    if d.len() > 1 {
        assert(d.skip(1).last() == d.last());
        lemma_positive(d.skip(1));
    }
}

pub proof fn lemma_written(d: Seq<u8>)
    requires
        canonical(d),
    ensures
        text::decimal(low_first(d)) == written(d),
    decreases d.len(),
{
    let rest = d.skip(1);
    if d.len() == 1 {
        assert(low_first(rest) == 0);
        assert(written(d) =~= seq![text::digit(d[0] as nat)]);
    } else {
        assert(rest.last() == d.last());
        assert forall|i: int| 0 <= i < rest.len() implies #[trigger] rest[i] < 10 by {
            assert(d[i + 1] < 10);
        }
        lemma_positive(rest);
        lemma_written(rest);
        let n = low_first(d);
        assert(n / 10 == low_first(rest) && n % 10 == d[0] as nat);
        assert(written(d) =~= written(rest).push(text::digit(d[0] as nat)));
    }
}

pub proof fn lemma_append(d: Seq<u8>, x: u8)
    ensures
        low_first(d.push(x)) == low_first(d) + pow(10, d.len()) * x,
        pow(10, d.len()) > 0,
    decreases d.len(),
{
    reveal(pow);
    if d.len() == 0 {
        assert(d.push(x).skip(1) =~= Seq::<u8>::empty());
        assert(low_first(Seq::<u8>::empty()) == 0);
    } else {
        lemma_append(d.skip(1), x);
        assert(d.push(x).skip(1) =~= d.skip(1).push(x));
        let p = pow(10, (d.len() - 1) as nat);
        assert(10 * (p * x as int) == (10 * p) * x as int) by (nonlinear_arith);
    }
}

/// Twice the number.
pub(super) fn twice(d: &Vec<u8>) -> (r: Vec<u8>)
    requires
        canonical(d@),
        low_first(d@) > 0,
    ensures
        canonical(r@),
        low_first(r@) == 2 * low_first(d@),
{
    let mut out: Vec<u8> = Vec::new();
    let mut carry: u8 = 0;
    let n: usize = d.len();
    proof {
        assert(d@.take(0) =~= Seq::empty());
    }
    for i in 0..n
        invariant
            n == d@.len(),
            canonical(d@),
            carry <= 1,
            out@.len() == i,
            forall|k: int| 0 <= k < i ==> #[trigger] out@[k] < 10,
            low_first(out@) + pow(10, i as nat) * carry == 2 * low_first(d@.take(i as int)),
            i > 0 ==> out@[i - 1] > 0 || carry > 0 || d@[i - 1] == 0,
    {
        let x: u8 = 2 * d[i] + carry;
        let low: u8 = x % 10;
        proof {
            let p = pow(10, i as nat);
            lemma_append(out@, low);
            lemma_append(d@.take(i as int), d@[i as int]);
            assert(d@.take(i + 1) =~= d@.take(i as int).push(d@[i as int]));
            assert(pow(10, (i + 1) as nat) == 10 * p) by {
                reveal(pow);
            }
            let (a, b, c, e) = (low as int, (x / 10) as int, carry as int, d@[i as int] as int);
            assert(p * a + (10 * p) * b == p * (2 * e) + p * c) by (nonlinear_arith)
                requires
                    a + 10 * b == 2 * e + c,
            ;
            assert(p * (2 * e) == 2 * (p * e)) by (nonlinear_arith);
        }
        out.push(low);
        carry = x / 10;
    }
    proof {
        assert(d@.take(n as int) =~= d@);
        lemma_append(out@, carry);
    }
    if carry > 0 {
        out.push(carry);
    } else {
        assert(pow(10, n as nat) * 0 == 0) by (nonlinear_arith);
        proof {
            if d@.len() == 1 {
                assert(low_first(d@.skip(1)) == 0);
            }
        }
    }
    out
}

/// The digits of a small number.
pub(super) fn of_u64(m: u64) -> (d: Vec<u8>)
    requires
        m > 0,
    ensures
        canonical(d@),
        low_first(d@) == m,
{
    let mut d: Vec<u8> = Vec::new();
    let mut rest: u64 = m;
    assert(pow(10, 0) == 1) by {
        reveal(pow);
    }
    while rest > 0
        invariant
            m > 0,
            low_first(d@) + pow(10, d@.len()) * rest == m,
            forall|i: int| 0 <= i < d@.len() ==> #[trigger] d@[i] < 10,
            rest == 0 ==> d@.len() > 0 && d@.last() > 0,
        decreases rest,
    {
        let low: u8 = (rest % 10) as u8;
        proof {
            lemma_append(d@, low);
            let p = pow(10, d@.len());
            assert(pow(10, d@.len() + 1) == 10 * p) by {
                reveal(pow);
            }
            let (a, b, c) = (low as int, (rest / 10) as int, rest as int);
            assert(p * a + (10 * p) * b == p * c) by (nonlinear_arith)
                requires
                    a + 10 * b == c,
            ;
        }
        d.push(low);
        rest = rest / 10;
    }
    proof {
        let p = pow(10, d@.len());
        assert(p * rest == 0) by (nonlinear_arith)
            requires
                rest == 0,
        ;
    }
    d
}

/// The number times 2^j.
pub(super) fn doubled(d: Vec<u8>, j: u32) -> (r: Vec<u8>)
    requires
        canonical(d@),
        low_first(d@) > 0,
    ensures
        canonical(r@),
        low_first(r@) == low_first(d@) * pow2(j as nat),
        low_first(r@) > 0,
{
    let ghost m = low_first(d@);
    let mut d = d;
    proof {
        lemma2_to64();
        assert(m * pow2(0) == m) by (nonlinear_arith)
            requires
                pow2(0) == 1,
        ;
    }
    for i in 0..j
        invariant
            canonical(d@),
            low_first(d@) == m * pow2(i as nat),
            low_first(d@) > 0,
    {
        proof {
            lemma_pow2_unfold((i + 1) as nat);
            let b = pow2(i as nat);
            assert(m * (2 * b) == 2 * (m * b)) by (nonlinear_arith);
        }
        d = twice(&d);
    }
    d
}

/// The number written out.
pub(super) fn text_of(d: &Vec<u8>) -> (r: String)
    requires
        canonical(d@),
    ensures
        r@ == text::decimal(low_first(d@)),
{
    let n: usize = d.len();
    let mut out = String::new();
    for i in 0..n
        invariant
            n == d@.len(),
            canonical(d@),
            out@ == written(d@).take(i as int),
    {
        out.push((48 + d[n - 1 - i]) as char);
        assert(written(d@).take(i + 1) =~= written(d@).take(i as int).push(
            text::digit(d@[n - 1 - i] as nat),
        ));
    }
    proof {
        lemma_written(d@);
        assert(written(d@).take(n as int) =~= written(d@));
    }
    out
}

/// A number is below the power of ten that its digits reach to, and a canonical one at
/// least the power before.
pub proof fn lemma_length(d: Seq<u8>)
    requires
        forall|i: int| 0 <= i < d.len() ==> #[trigger] d[i] < 10,
    ensures
        low_first(d) < pow(10, d.len()),
        d.len() > 0 && d.last() > 0 ==> pow(10, (d.len() - 1) as nat) <= low_first(d),
        pow(10, d.len()) > 0,
    decreases d.len(),
{
    reveal(pow);
    if d.len() > 0 {
        let rest = d.skip(1);
        assert forall|i: int| 0 <= i < rest.len() implies #[trigger] rest[i] < 10 by {
            assert(d[i + 1] < 10);
        }
        lemma_length(rest);
        if d.len() == 1 {
            assert(low_first(rest) == 0);
        } else {
            assert(rest.last() == d.last());
        }
    }
}

/// A number is its low digits and its high digits together.
pub proof fn lemma_split(d: Seq<u8>, n: int)
    requires
        0 <= n <= d.len(),
    ensures
        low_first(d) == low_first(d.take(n)) + pow(10, n as nat) * low_first(d.skip(n)),
    decreases n,
{
    reveal(pow);
    if n == 0 {
        assert(d.take(0) =~= Seq::empty());
        assert(d.skip(0) =~= d);
        assert(1 * low_first(d) == low_first(d));
    } else {
        let rest = d.skip(1);
        lemma_split(rest, n - 1);
        assert(d.take(n).skip(1) =~= rest.take(n - 1));
        assert(rest.skip(n - 1) =~= d.skip(n));
        let (p, h) = (pow(10, (n - 1) as nat), low_first(d.skip(n)) as int);
        assert(10 * (p * h) == (10 * p) * h) by (nonlinear_arith);
    }
}

/// Of two numbers of the same length, the first digit from the top that differs decides.
proof fn lemma_decided(a: Seq<u8>, b: Seq<u8>, n: int)
    requires
        a.len() == b.len(),
        0 <= n < a.len(),
        forall|i: int| 0 <= i < a.len() ==> #[trigger] a[i] < 10,
        forall|i: int| 0 <= i < b.len() ==> #[trigger] b[i] < 10,
        a.skip(n + 1) == b.skip(n + 1),
        a[n] < b[n],
    ensures
        low_first(a) < low_first(b),
{
    lemma_split(a, n);
    lemma_split(b, n);
    lemma_length(a.take(n));
    let (p, x, y) = (pow(10, n as nat), low_first(a.skip(n)) as int, low_first(b.skip(n)) as int);
    assert(a.skip(n).skip(1) =~= a.skip(n + 1));
    assert(b.skip(n).skip(1) =~= b.skip(n + 1));
    assert(p * x + p <= p * y) by (nonlinear_arith)
        requires
            x + 1 <= y,
            p > 0,
    ;
}

/// Which of two numbers is the larger: -1, 0 or 1 as the first is below, equal or above.
pub(super) fn compare(a: &Vec<u8>, b: &Vec<u8>) -> (r: i8)
    requires
        canonical(a@),
        canonical(b@),
        low_first(a@) > 0,
        low_first(b@) > 0,
    ensures
        r == -1 || r == 0 || r == 1,
        r == -1 <==> low_first(a@) < low_first(b@),
        r == 0 <==> low_first(a@) == low_first(b@),
{
    proof {
        lemma_length(a@);
        lemma_length(b@);
        lemma_top(a@);
        lemma_top(b@);
    }
    if a.len() < b.len() {
        proof {
            lemma_pow_increases(10, a@.len(), (b@.len() - 1) as nat);
        }
        return -1;
    }
    if b.len() < a.len() {
        proof {
            lemma_pow_increases(10, b@.len(), (a@.len() - 1) as nat);
        }
        return 1;
    }
    let mut n: usize = a.len();
    assert(a@.skip(n as int) =~= b@.skip(n as int));
    while n > 0
        invariant
            n <= a@.len() == b@.len(),
            canonical(a@),
            canonical(b@),
            a@.skip(n as int) == b@.skip(n as int),
        decreases n,
    {
        n = n - 1;
        if a[n] < b[n] {
            proof {
                lemma_decided(a@, b@, n as int);
            }
            return -1;
        }
        if b[n] < a[n] {
            proof {
                lemma_decided(b@, a@, n as int);
            }
            return 1;
        }
        assert(a@.skip(n as int) =~= seq![a@[n as int]] + a@.skip(n + 1));
        assert(b@.skip(n as int) =~= seq![b@[n as int]] + b@.skip(n + 1));
    }
    assert(a@.skip(0) =~= a@);
    assert(b@.skip(0) =~= b@);
    0
}

/// A positive canonical number has a top digit.
proof fn lemma_top(d: Seq<u8>)
    requires
        canonical(d),
        low_first(d) > 0,
    ensures
        d.last() > 0,
{
    if d.len() == 1 {
        assert(low_first(d.skip(1)) == 0);
    }
}

/// The number times 10^n.
pub(super) fn shifted(d: &Vec<u8>, n: usize) -> (r: Vec<u8>)
    requires
        canonical(d@),
        low_first(d@) > 0,
    ensures
        canonical(r@),
        low_first(r@) == low_first(d@) * pow(10, n as nat),
        low_first(r@) > 0,
{
    let mut out: Vec<u8> = Vec::new();
    assert(low_first(out@) == 0);
    for i in 0..n
        invariant
            out@.len() == i,
            low_first(out@) == 0,
            forall|k: int| 0 <= k < i ==> #[trigger] out@[k] == 0,
    {
        proof {
            lemma_append(out@, 0);
        }
        out.push(0);
    }
    let ghost zeros = out@;
    for i in 0..d.len()
        invariant
            canonical(d@),
            out@ == zeros + d@.take(i as int),
    {
        out.push(d[i]);
        assert(d@.take(i + 1) =~= d@.take(i as int).push(d@[i as int]));
    }
    proof {
        lemma_top(d@);
        assert(d@.take(d@.len() as int) =~= d@);
        assert(out@.take(n as int) =~= zeros);
        assert(out@.skip(n as int) =~= d@);
        lemma_split(out@, n as int);
        lemma_length(zeros);
        let (p, x) = (pow(10, n as nat), low_first(d@) as int);
        assert(p * x == x * p && p * x > 0) by (nonlinear_arith)
            requires
                p > 0,
                x > 0,
        ;
        assert(out@.last() == d@.last());
    }
    out
}

/// Which is the larger: `a`, or `b` times 10^n.
pub(super) fn compare_shifted(a: &Vec<u8>, b: &Vec<u8>, n: u128) -> (r: i8)
    requires
        canonical(a@),
        canonical(b@),
        low_first(a@) > 0,
        low_first(b@) > 0,
    ensures
        r == -1 || r == 0 || r == 1,
        r == -1 <==> low_first(a@) < low_first(b@) * pow(10, n as nat),
        r == 0 <==> low_first(a@) == low_first(b@) * pow(10, n as nat),
{
    let ghost (x, y, p) = (low_first(a@) as int, low_first(b@) as int, pow(10, n as nat));
    proof {
        lemma_length(a@);
        lemma_top(a@);
        lemma_pow_positive(10, n as nat);
    }
    if n >= a.len() as u128 {
        proof {
            lemma_pow_increases(10, a@.len(), n as nat);
            assert(y * p >= p) by (nonlinear_arith)
                requires
                    y >= 1,
                    p > 0,
            ;
        }
        return -1;
    }
    let k: usize = n as usize;
    let mut high: Vec<u8> = Vec::new();
    assert(a@.subrange(k as int, k as int) =~= Seq::empty());
    for i in k..a.len()
        invariant
            k <= a@.len(),
            high@ == a@.subrange(k as int, i as int),
    {
        high.push(a[i]);
        assert(a@.subrange(k as int, i + 1) =~= a@.subrange(k as int, i as int).push(
            a@[i as int],
        ));
    }
    let ghost z = low_first(high@) as int;
    let ghost low = low_first(a@.take(k as int)) as int;
    proof {
        assert(high@ =~= a@.skip(k as int));
        assert(high@.last() == a@.last());
        lemma_positive(high@);
        lemma_split(a@, k as int);
        lemma_length(a@.take(k as int));
        assert(x == low + p * z && 0 <= low < p);
    }
    let c: i8 = compare(&high, b);
    if c != 0 {
        proof {
            assert(z + 1 <= y ==> low + p * z < y * p) by (nonlinear_arith)
                requires
                    low < p,
                    p > 0,
            ;
            assert(y + 1 <= z ==> low + p * z > y * p) by (nonlinear_arith)
                requires
                    0 <= low,
                    p > 0,
            ;
        }
        return c;
    }
    assert(p * z == y * p) by (nonlinear_arith)
        requires
            z == y,
    ;
    let ghost bottom = a@.take(k as int);
    for i in 0..k
        invariant
            k < a@.len(),
            canonical(a@),
            bottom == a@.take(k as int),
            forall|j: int| 0 <= j < i ==> #[trigger] bottom[j] == 0,
            x == low + p * z,
            p * z == y * p,
            low == low_first(bottom),
            x == low_first(a@),
            y == low_first(b@),
            p == pow(10, n as nat),
    {
        if a[i] > 0 {
            proof {
                assert(bottom[i as int] == a@[i as int]);
                lemma_some_digit(bottom, i as int);
            }
            return 1;
        }
        assert(bottom[i as int] == a@[i as int]);
    }
    proof {
        lemma_no_digit(bottom);
    }
    0
}

proof fn lemma_some_digit(d: Seq<u8>, i: int)
    requires
        0 <= i < d.len(),
        d[i] > 0,
    ensures
        low_first(d) > 0,
    decreases d.len(),
{
    if i > 0 {
        assert(d.skip(1)[i - 1] == d[i]);
        lemma_some_digit(d.skip(1), i - 1);
    }
}

proof fn lemma_no_digit(d: Seq<u8>)
    requires
        forall|i: int| 0 <= i < d.len() ==> #[trigger] d[i] == 0,
    ensures
        low_first(d) == 0,
    decreases d.len(),
{
    if d.len() > 0 {
        assert forall|i: int| 0 <= i < d.skip(1).len() implies #[trigger] d.skip(1)[i] == 0 by {
            assert(d[i + 1] == 0);
        }
        lemma_no_digit(d.skip(1));
    }
}

} // verus!
