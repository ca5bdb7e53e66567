//! Sums over integer sequences, with the bounds that rule out overflow.

use vstd::prelude::*;

verus! {

pub open spec fn abs(x: int) -> int {
    if x < 0 {
        -x
    } else {
        x
    }
}

/// The sum of a sequence of integers.
pub open spec fn sum(s: Seq<int>) -> int
    decreases s.len(),
{
    if s.len() == 0 {
        0
    } else {
        sum(s.drop_last()) + s.last()
    }
}

/// The sum of the absolute values: a bound on every partial sum.
pub open spec fn sum_abs(s: Seq<int>) -> int
    decreases s.len(),
{
    if s.len() == 0 {
        0
    } else {
        sum_abs(s.drop_last()) + abs(s.last())
    }
}

pub proof fn lemma_sum_bound(s: Seq<int>)
    ensures
        abs(sum(s)) <= sum_abs(s),
        sum_abs(s) >= 0,
    decreases s.len(),
{
    if s.len() > 0 {
        lemma_sum_bound(s.drop_last());
    }
}

/// Prefixes never exceed the whole in absolute weight.
pub proof fn lemma_sum_abs_take(s: Seq<int>, i: int)
    requires
        0 <= i <= s.len(),
    ensures
        0 <= sum_abs(s.take(i)) <= sum_abs(s),
    decreases s.len() - i,
{
    lemma_sum_bound(s.take(i));
    if i < s.len() {
        lemma_sum_abs_take(s, i + 1);
        assert(s.take(i + 1).drop_last() =~= s.take(i));
        assert(sum_abs(s.take(i + 1)) == sum_abs(s.take(i)) + abs(s[i]));
    } else {
        assert(s.take(i) =~= s);
    }
}

/// Sums split across concatenation.
pub proof fn lemma_sum_concat(a: Seq<int>, b: Seq<int>)
    ensures
        sum(a + b) == sum(a) + sum(b),
        sum_abs(a + b) == sum_abs(a) + sum_abs(b),
    decreases b.len(),
{
    if b.len() == 0 {
        assert(a + b =~= a);
    } else {
        lemma_sum_concat(a, b.drop_last());
        assert((a + b).drop_last() =~= a + b.drop_last());
        assert((a + b).last() == b.last());
    }
}

pub open spec fn ints(vals: Seq<i32>) -> Seq<int> {
    vals.map_values(|x: i32| x as int)
}

/// Sums a slice of `i32`, safe under the absolute-weight bound.
pub fn sum_i32(vals: &[i32]) -> (r: i32)
    requires
        sum_abs(ints(vals@)) <= i32::MAX,
    ensures
        r == sum(ints(vals@)),
{
    let ghost s = ints(vals@);
    let mut total: i32 = 0;
    let mut i: usize = 0;
    proof {
        assert(s.take(0) =~= Seq::<int>::empty());
    }
    while i < vals.len()
        invariant
            i <= vals@.len(),
            s == ints(vals@),
            sum_abs(s) <= i32::MAX,
            total == sum(s.take(i as int)),
        decreases vals@.len() - i,
    {
        proof {
            lemma_sum_take_step(s, i as int);
            lemma_sum_abs_take(s, i + 1);
            lemma_sum_bound(s.take((i + 1) as int));
        }
        total = total + vals[i];
        i = i + 1;
    }
    proof {
        assert(s.take(vals@.len() as int) =~= s);
    }
    total
}

/// Appending one element adds it to the sum.
pub proof fn lemma_sum_take_step(s: Seq<int>, i: int)
    requires
        0 <= i < s.len(),
    ensures
        sum(s.take(i + 1)) == sum(s.take(i)) + s[i],
        sum_abs(s.take(i + 1)) == sum_abs(s.take(i)) + abs(s[i]),
{
    assert(s.take(i + 1).drop_last() =~= s.take(i));
}

} // verus!
