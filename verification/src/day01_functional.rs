//! Calorie counting, iterator style: the same blank-line grammar as
//! `day01`, with a real second part that sums the three largest groups.

use vstd::prelude::*;

verus! {

use crate::arith;
use crate::day01;
use crate::day01::ParseError;

/// Parses the blank-line-separated groups into their sums.
pub fn parse(input: &str) -> (r: Result<Vec<i32>, ParseError>)
    requires
        day01::sums_bounded(input@),
    ensures
        day01::parse_ok(input@) ==> r is Ok && r->Ok_0@ == day01::parsed_values(input@),
        !day01::parse_ok(input@) ==> r is Err,
{
    day01::parse(input)
}

/// The largest group sum, or zero when there is none.
pub fn part1(vals: &[i32]) -> (r: i32)
    ensures
        r == day01::spec_max(vals@),
{
    day01::part1(vals)
}

/// Keeps the three largest of the values seen so far, in descending order.
pub open spec fn top3_insert(t: (int, int, int), v: int) -> (int, int, int) {
    if v > t.0 {
        (v, t.0, t.1)
    } else if v > t.1 {
        (t.0, v, t.1)
    } else if v > t.2 {
        (t.0, t.1, v)
    } else {
        t
    }
}

/// A value strictly below every `i32`, displaced by any real value.
pub open spec fn low_sentinel() -> int {
    -0x8000_0001
}

/// The three largest values, in descending order, from sentinels up.
pub open spec fn top3_of(s: Seq<i32>) -> (int, int, int)
    decreases s.len(),
{
    if s.len() == 0 {
        (low_sentinel(), low_sentinel(), low_sentinel())
    } else {
        top3_insert(top3_of(s.drop_last()), s.last() as int)
    }
}

pub open spec fn is_elem(s: Seq<i32>, x: int) -> bool {
    exists|i: int| 0 <= i < s.len() && #[trigger] s[i] as int == x
}

/// The running triple is sorted, and each slot holds an element once enough
/// values have been seen.
proof fn lemma_top3_shape(s: Seq<i32>)
    ensures
        top3_of(s).0 >= top3_of(s).1 >= top3_of(s).2,
        s.len() >= 1 ==> is_elem(s, top3_of(s).0),
        s.len() >= 2 ==> is_elem(s, top3_of(s).1),
        s.len() >= 3 ==> is_elem(s, top3_of(s).2),
        top3_of(s).0 == low_sentinel() || is_elem(s, top3_of(s).0),
        top3_of(s).1 == low_sentinel() || is_elem(s, top3_of(s).1),
        top3_of(s).2 == low_sentinel() || is_elem(s, top3_of(s).2),
        s.len() < 1 ==> top3_of(s).0 == low_sentinel(),
        s.len() < 2 ==> top3_of(s).1 == low_sentinel(),
        s.len() < 3 ==> top3_of(s).2 == low_sentinel(),
    decreases s.len(),
{
    if s.len() > 0 {
        let r = s.drop_last();
        lemma_top3_shape(r);
        assert forall|x: int| #[trigger] is_elem(r, x) implies is_elem(s, x) by {
            let i = choose|i: int| 0 <= i < r.len() && #[trigger] r[i] as int == x;
            assert(s[i] as int == x);
        }
        assert(s[s.len() - 1] as int == s.last() as int);
        assert(is_elem(s, s.last() as int));
    }
}

/// Any element weighs no more than the whole sequence.
proof fn lemma_elem_abs(s: Seq<i32>, x: int)
    requires
        is_elem(s, x),
    ensures
        arith::abs(x) <= arith::sum_abs(arith::ints(s)),
    decreases s.len(),
{
    arith::lemma_sum_bound(arith::ints(s));
    let i = choose|i: int| 0 <= i < s.len() && #[trigger] s[i] as int == x;
    if i == s.len() - 1 {
        arith::lemma_sum_bound(arith::ints(s).drop_last());
        assert(arith::ints(s).last() == x);
    } else {
        assert(is_elem(s.drop_last(), x)) by {
            assert(s.drop_last()[i] as int == x);
        }
        lemma_elem_abs(s.drop_last(), x);
        assert(arith::ints(s).drop_last() =~= arith::ints(s.drop_last()));
    }
}

/// The sum of the three largest group sums.
pub fn part2(vals: &[i32]) -> (r: i32)
    requires
        vals@.len() >= 3,
        arith::sum_abs(arith::ints(vals@)) * 3 <= i32::MAX,
    ensures
        r as int == top3_of(vals@).0 + top3_of(vals@).1 + top3_of(vals@).2,
{
    let ghost s = vals@;
    let mut a: i64 = -0x8000_0001i64;
    let mut b: i64 = -0x8000_0001i64;
    let mut c: i64 = -0x8000_0001i64;
    let mut i: usize = 0;
    proof {
        assert(s.take(0) =~= Seq::<i32>::empty());
    }
    while i < vals.len()
        invariant
            i <= s.len(),
            s == vals@,
            (a as int, b as int, c as int) == top3_of(s.take(i as int)),
            -0x8000_0001 <= c <= b <= a <= 0x7fff_ffff,
        decreases s.len() - i,
    {
        proof {
            assert(s.take((i + 1) as int).drop_last() =~= s.take(i as int));
            assert(s.take((i + 1) as int).last() == s[i as int]);
            lemma_top3_shape(s.take((i + 1) as int));
        }
        let v = vals[i] as i64;
        if v > a {
            c = b;
            b = a;
            a = v;
        } else if v > b {
            c = b;
            b = v;
        } else if v > c {
            c = v;
        }
        i = i + 1;
    }
    proof {
        assert(s.take(s.len() as int) =~= s);
        lemma_top3_shape(s);
        lemma_elem_abs(s, a as int);
        lemma_elem_abs(s, b as int);
        lemma_elem_abs(s, c as int);
        arith::lemma_sum_bound(arith::ints(s));
    }
    (a + b + c) as i32
}

} // verus!
