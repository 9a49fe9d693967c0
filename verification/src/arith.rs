//! Small arithmetic: rounding division, saturation, sums and maxima.

use vstd::prelude::*;

verus! {

/// The smallest integer not below `a / b`.
pub open spec fn ceil_div_spec(a: int, b: int) -> int {
    (a + b - 1) / b
}

/// The product, or the largest `u64` where it is larger.
pub open spec fn saturated(n: int) -> u64 {
    if n > u64::MAX {
        u64::MAX
    } else {
        n as u64
    }
}

/// Divides and rounds up.
pub fn ceil_div(a: u64, b: u64) -> (q: u64)
    requires
        b > 0,
    ensures
        q == ceil_div_spec(a as int, b as int),
        q <= a,
        q * b >= a,
        a > 0 ==> q > 0,
        (q - 1) * b < a,
{
    let q: u64 = a / b;
    proof {
        let x = a as int;
        let y = b as int;
        vstd::arithmetic::div_mod::lemma_fundamental_div_mod(x, y);
        let k = x / y;
        let r = x % y;
        assert(x == y * k + r && 0 <= r < y);
        assert(k * y == y * k) by (nonlinear_arith);
        assert((k + 1) * y == k * y + y) by (nonlinear_arith);
        assert((k - 1) * y == k * y - y) by (nonlinear_arith);
        if r == 0 {
            vstd::arithmetic::div_mod::lemma_fundamental_div_mod_converse(x + y - 1, y, k, y - 1);
        } else {
            vstd::arithmetic::div_mod::lemma_fundamental_div_mod_converse(
                x + y - 1,
                y,
                k + 1,
                r - 1,
            );
        }
        assert(k <= x) by (nonlinear_arith)
            requires
                x == y * k + r,
                r >= 0,
                y >= 1,
                k >= 0,
        ;
        assert(r > 0 ==> k + 1 <= x) by (nonlinear_arith)
            requires
                x == y * k + r,
                y >= 1,
                k >= 0,
        ;
    }
    if a % b == 0 {
        q
    } else {
        q + 1
    }
}

/// Multiplies, up to the largest `u64`.
pub fn saturating_product(a: u64, b: u64) -> (p: u64)
    ensures
        p == saturated(a * b),
{
    assert(0 <= a * b <= u64::MAX * u64::MAX) by (nonlinear_arith)
        requires
            0 <= a <= u64::MAX,
            0 <= b <= u64::MAX,
    ;
    let p: u128 = a as u128 * b as u128;
    if p > u64::MAX as u128 {
        u64::MAX
    } else {
        p as u64
    }
}

/// The sum of a sequence.
pub open spec fn total(s: Seq<u64>) -> nat
    decreases s.len(),
{
    if s.len() == 0 {
        0
    } else {
        total(s.drop_last()) + s.last() as nat
    }
}

/// The largest number of a sequence; zero for an empty one.
pub open spec fn largest(s: Seq<u64>) -> u64
    decreases s.len(),
{
    if s.len() == 0 {
        0
    } else if largest(s.drop_last()) > s.last() {
        largest(s.drop_last())
    } else {
        s.last()
    }
}

/// The sum grows with the sequence.
pub proof fn total_prefix(s: Seq<u64>, i: int)
    requires
        0 <= i <= s.len(),
    ensures
        total(s.take(i)) <= total(s),
    decreases s.len() - i,
{
    if i < s.len() {
        total_step(s, i);
        total_prefix(s, i + 1);
    } else {
        assert(s.take(i) =~= s);
    }
}

/// One more number adds itself to the sum.
pub proof fn total_step(s: Seq<u64>, i: int)
    requires
        0 <= i < s.len(),
    ensures
        total(s.take(i + 1)) == total(s.take(i)) + s[i],
        largest(s.take(i + 1)) == if largest(s.take(i)) > s[i] {
            largest(s.take(i))
        } else {
            s[i]
        },
{
    assert(s.take(i + 1).drop_last() =~= s.take(i));
}

/// Adding to one number adds to the sum.
pub proof fn total_update(s: Seq<u64>, i: int, v: u64)
    requires
        0 <= i < s.len(),
    ensures
        total(s.update(i, v)) == total(s) - s[i] + v,
    decreases s.len(),
{
    let t = s.update(i, v);
    if i == s.len() - 1 {
        assert(t.drop_last() =~= s.drop_last());
    } else {
        assert(t.drop_last() =~= s.drop_last().update(i, v));
        total_update(s.drop_last(), i, v);
    }
}

/// A number that is put in adds itself to the sum.
pub proof fn total_insert(s: Seq<u64>, i: int, v: u64)
    requires
        0 <= i <= s.len(),
    ensures
        total(s.insert(i, v)) == total(s) + v,
    decreases s.len(),
{
    let t = s.insert(i, v);
    if i == s.len() {
        assert(t.drop_last() =~= s);
    } else {
        assert(t.drop_last() =~= s.drop_last().insert(i, v));
        total_insert(s.drop_last(), i, v);
    }
}

/// A number that is taken out leaves the sum.
pub proof fn total_remove(s: Seq<u64>, i: int)
    requires
        0 <= i < s.len(),
    ensures
        total(s.remove(i)) == total(s) - s[i],
    decreases s.len(),
{
    let t = s.remove(i);
    if i == s.len() - 1 {
        assert(t =~= s.drop_last());
    } else {
        assert(t.drop_last() =~= s.drop_last().remove(i));
        total_remove(s.drop_last(), i);
    }
}

/// A sum of numbers that are not below `low` is not below as many times `low`.
pub proof fn total_at_least(s: Seq<u64>, low: int)
    requires
        forall|i: int| 0 <= i < s.len() ==> low <= s[i],
    ensures
        s.len() * low <= total(s),
    decreases s.len(),
{
    if s.len() > 0 {
        total_at_least(s.drop_last(), low);
        assert(s.len() * low == (s.len() - 1) * low + low) by (nonlinear_arith);
    } else {
        assert(0 * low == 0) by (nonlinear_arith);
    }
}

/// No number is above the sum.
pub proof fn total_bounds(s: Seq<u64>, i: int)
    requires
        0 <= i < s.len(),
    ensures
        s[i] <= total(s),
    decreases s.len(),
{
    if i < s.len() - 1 {
        total_bounds(s.drop_last(), i);
    }
}

/// Nothing adds up to zero.
pub proof fn total_zeros(s: Seq<u64>)
    requires
        forall|i: int| 0 <= i < s.len() ==> s[i] == 0,
    ensures
        total(s) == 0,
    decreases s.len(),
{
    if s.len() > 0 {
        total_zeros(s.drop_last());
    }
}

/// The largest number is in the sequence and none is above it.
pub proof fn largest_bounds(s: Seq<u64>)
    ensures
        forall|i: int| 0 <= i < s.len() ==> s[i] <= largest(s),
        s.len() > 0 ==> exists|i: int| 0 <= i < s.len() && s[i] == largest(s),
    decreases s.len(),
{
    if s.len() > 0 {
        largest_bounds(s.drop_last());
        assert forall|i: int| 0 <= i < s.len() implies s[i] <= largest(s) by {
            if i < s.len() - 1 {
                assert(s.drop_last()[i] == s[i]);
            }
        }
        if largest(s.drop_last()) > s.last() {
            let j = choose|j: int|
                0 <= j < s.drop_last().len() && s.drop_last()[j] == largest(s.drop_last());
            assert(s[j] == largest(s));
        } else {
            assert(s[s.len() - 1] == largest(s));
        }
    }
}

/// Adds up a sequence.
pub fn add_up(numbers: &Vec<u64>) -> (sum: u64)
    requires
        total(numbers@) <= u64::MAX,
    ensures
        sum == total(numbers@),
{
    let mut sum: u64 = 0;
    let mut i: usize = 0;
    while i < numbers.len()
        invariant
            i <= numbers@.len(),
            sum == total(numbers@.take(i as int)),
            total(numbers@) <= u64::MAX,
        decreases numbers.len() - i,
    {
        proof {
            total_step(numbers@, i as int);
            total_prefix(numbers@, i + 1);
        }
        sum = sum + numbers[i];
        i += 1;
    }
    assert(numbers@.take(i as int) =~= numbers@);
    sum
}

/// The largest number of a sequence.
pub fn find_largest(numbers: &Vec<u64>) -> (max: u64)
    ensures
        max == largest(numbers@),
{
    let mut max: u64 = 0;
    let mut i: usize = 0;
    while i < numbers.len()
        invariant
            i <= numbers@.len(),
            max == largest(numbers@.take(i as int)),
        decreases numbers.len() - i,
    {
        proof {
            total_step(numbers@, i as int);
        }
        if numbers[i] >= max {
            max = numbers[i];
        }
        i += 1;
    }
    assert(numbers@.take(i as int) =~= numbers@);
    max
}

/// The sum of the first `m` values of a function.
pub open spec fn sum_over(f: spec_fn(int) -> nat, m: nat) -> nat
    decreases m,
{
    if m == 0 {
        0
    } else {
        sum_over(f, (m - 1) as nat) + f(m - 1)
    }
}

/// Equal values have equal sums.
pub proof fn sum_over_same(f: spec_fn(int) -> nat, g: spec_fn(int) -> nat, m: nat)
    requires
        forall|i: int| 0 <= i < m ==> #[trigger] f(i) == g(i),
    ensures
        sum_over(f, m) == sum_over(g, m),
    decreases m,
{
    if m > 0 {
        sum_over_same(f, g, (m - 1) as nat);
        assert(f(m - 1) == g(m - 1));
    }
}

/// A sum grows with one of its values.
pub proof fn sum_over_point(f: spec_fn(int) -> nat, g: spec_fn(int) -> nat, m: nat, j: int, more: nat)
    requires
        0 <= j < m,
        forall|i: int| 0 <= i < m && i != j ==> #[trigger] f(i) == g(i),
        g(j) == f(j) + more,
    ensures
        sum_over(g, m) == sum_over(f, m) + more,
    decreases m,
{
    if j == m - 1 {
        sum_over_same(f, g, (m - 1) as nat);
    } else {
        sum_over_point(f, g, (m - 1) as nat, j, more);
        assert(f(m - 1) == g(m - 1));
    }
}

/// Nothing adds up to nothing.
pub proof fn sum_over_zero(f: spec_fn(int) -> nat, m: nat)
    requires
        forall|i: int| 0 <= i < m ==> #[trigger] f(i) == 0,
    ensures
        sum_over(f, m) == 0,
    decreases m,
{
    if m > 0 {
        sum_over_zero(f, (m - 1) as nat);
        assert(f(m - 1) == 0);
    }
}

} // verus!
