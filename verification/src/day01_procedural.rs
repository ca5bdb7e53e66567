//! Calorie counting, loop style: groups are separated by completely empty
//! lines, and every non-empty line is a single integer.

use vstd::prelude::*;

verus! {

use crate::arith;
use crate::day01_functional::top3_insert;
use crate::text;

/// The index of the first empty line, or the length if none is empty.
pub open spec fn find_empty(lines: Seq<Seq<char>>) -> int
    decreases lines.len(),
{
    if lines.len() == 0 {
        0
    } else if lines[0].len() == 0 {
        0
    } else {
        1 + find_empty(lines.drop_first())
    }
}

pub proof fn lemma_find_empty(lines: Seq<Seq<char>>)
    ensures
        0 <= find_empty(lines) <= lines.len(),
        forall|k: int| 0 <= k < find_empty(lines) ==> (#[trigger] lines[k]).len() != 0,
        find_empty(lines) < lines.len() ==> lines[find_empty(lines)].len() == 0,
    decreases lines.len(),
{
    if lines.len() > 0 && lines[0].len() != 0 {
        lemma_find_empty(lines.drop_first());
        assert forall|k: int| 0 <= k < find_empty(lines) implies (#[trigger] lines[k]).len()
            != 0 by {
            if k > 0 {
                assert(lines.drop_first()[k - 1] == lines[k]);
                assert(lines.drop_first()[k - 1].len() != 0);
            }
        }
        if find_empty(lines) < lines.len() {
            assert(lines.drop_first()[find_empty(lines) - 1] == lines[find_empty(lines)]);
        }
    }
}

/// The value of each line of one group.
pub open spec fn lines_values(lines: Seq<Seq<char>>) -> Seq<int> {
    lines.map_values(|l: Seq<char>| text::spec_parse_i32(l)->0 as int)
}

/// The group sums: every empty line closes a group, and the final stretch
/// always counts, so an input of `n` empty lines yields `n + 1` sums.
pub open spec fn spec_group_sums(lines: Seq<Seq<char>>) -> Seq<int>
    decreases lines.len(),
        via spec_group_sums_decreases
{
    let i = find_empty(lines);
    if i == lines.len() {
        seq![arith::sum(lines_values(lines))]
    } else {
        seq![arith::sum(lines_values(lines.take(i)))] + spec_group_sums(lines.skip(i + 1))
    }
}

#[via_fn]
proof fn spec_group_sums_decreases(lines: Seq<Seq<char>>) {
    lemma_find_empty(lines);
}

/// Every line is empty or a signed numeral.
pub open spec fn parse_ok(lines: Seq<Seq<char>>) -> bool {
    forall|i: int|
        0 <= i < lines.len() ==> ((#[trigger] lines[i]).len() == 0 || text::spec_parse_i32(
            lines[i],
        ) is Some)
}

/// No group's weight exceeds the machine bound.
pub open spec fn sums_bounded(lines: Seq<Seq<char>>) -> bool
    decreases lines.len(),
        via sums_bounded_decreases
{
    let i = find_empty(lines);
    if i == lines.len() {
        arith::sum_abs(lines_values(lines)) <= i32::MAX
    } else {
        arith::sum_abs(lines_values(lines.take(i))) <= i32::MAX && sums_bounded(lines.skip(i + 1))
    }
}

#[via_fn]
proof fn sums_bounded_decreases(lines: Seq<Seq<char>>) {
    lemma_find_empty(lines);
}

pub open spec fn input_lines(s: Seq<char>) -> Seq<Seq<char>> {
    text::spec_lines(s)
}

/// Splits the input into group sums: one integer per line, empty lines
/// separating the groups.
pub fn parse(input: &str) -> (r: Vec<i32>)
    requires
        parse_ok(input_lines(input@)),
        sums_bounded(input_lines(input@)),
    ensures
        arith::ints(r@) == spec_group_sums(input_lines(input@)),
{
    let ghost all = input_lines(input@);
    let chars = text::chars_of(input);
    let lines = text::split_lines(&chars);
    let mut result: Vec<i32> = Vec::new();
    let mut sum: i32 = 0;
    let mut pos: usize = 0;
    let ghost mut gstart: int = 0;
    proof {
        assert(all.skip(0) =~= all);
        assert(all.skip(0).take(0) =~= Seq::<Seq<char>>::empty());
        assert(lines_values(Seq::<Seq<char>>::empty()) =~= Seq::<int>::empty());
        assert(arith::ints(result@) + spec_group_sums(all) =~= spec_group_sums(all));
    }
    while pos < lines.len()
        invariant
            0 <= gstart <= pos <= all.len(),
            lines@.map_values(|l: Vec<char>| l@) == all,
            parse_ok(all),
            sums_bounded(all),
            spec_group_sums(all) == arith::ints(result@) + spec_group_sums(
                all.skip(gstart),
            ),
            forall|k: int| gstart <= k < pos ==> (#[trigger] all[k]).len() != 0,
            sum == arith::sum(lines_values(all.skip(gstart).take(pos - gstart))),
            arith::abs(sum as int) <= arith::sum_abs(
                lines_values(all.skip(gstart).take(pos - gstart)),
            ),
            sums_bounded(all.skip(gstart)),
        decreases all.len() - pos,
    {
        let ghost rest = all.skip(gstart);
        let line = &lines[pos];
        assert(line@ == all[pos as int]);
        proof {
            lemma_find_empty(rest);
        }
        if line.len() == 0 {
            proof {
                let i = find_empty(rest);
                assert forall|k: int| 0 <= k < pos - gstart implies (#[trigger] rest[k]).len()
                    != 0 by {
                    assert(rest[k] == all[gstart + k]);
                }
                assert(rest[pos - gstart].len() == 0);
                if i < pos - gstart {
                    assert(rest[i].len() != 0);
                }
                if i > pos - gstart {
                    assert(rest[pos - gstart].len() != 0);
                }
                assert(i == pos - gstart);
                assert(spec_group_sums(rest) == seq![
                    arith::sum(lines_values(rest.take(i))),
                ] + spec_group_sums(rest.skip(i + 1)));
                assert(rest.skip(i + 1) =~= all.skip(pos + 1));
            }
            let ghost old_result = result@;
            result.push(sum);
            proof {
                assert(arith::ints(result@) =~= arith::ints(old_result).push(sum as int));
                assert(arith::ints(old_result).push(sum as int) + spec_group_sums(
                    all.skip(pos + 1),
                ) =~= arith::ints(old_result) + spec_group_sums(all.skip(gstart)));
            }
            sum = 0;
            pos = pos + 1;
            proof {
                gstart = pos as int;
                assert(all.skip(gstart).take(0) =~= Seq::<Seq<char>>::empty());
                assert(lines_values(Seq::<Seq<char>>::empty()) =~= Seq::<int>::empty());
            }
        } else {
            let ghost gv = lines_values(rest.take(pos - gstart));
            match text::parse_i32_chars(line.as_slice()) {
                Some(v) => {
                    proof {
                        let i = find_empty(rest);
                        let gv2 = lines_values(rest.take(pos + 1 - gstart));
                        assert(rest.take(pos + 1 - gstart).drop_last() =~= rest.take(
                            pos - gstart,
                        ));
                        assert(gv2.drop_last() =~= gv);
                        assert(rest[pos - gstart] == all[pos as int]);
                        assert(gv2.last() == v as int);
                        assert(arith::sum(gv2) == arith::sum(gv) + v);
                        assert(arith::sum_abs(gv2) == arith::sum_abs(gv) + arith::abs(v as int));
                        // The enclosing group's weight bounds this partial sum.
                        assert forall|k: int| 0 <= k < pos + 1 - gstart implies (
                        #[trigger] rest[k]).len() != 0 by {
                            if k < pos - gstart {
                                assert(rest[k] == all[gstart + k]);
                            }
                        }
                        if i < pos + 1 - gstart {
                            assert(rest[i].len() != 0);
                        }
                        assert(i >= pos + 1 - gstart);
                        if i == rest.len() {
                            arith::lemma_sum_abs_take(lines_values(rest), pos + 1 - gstart);
                            assert(lines_values(rest).take(pos + 1 - gstart) =~= gv2);
                        } else {
                            arith::lemma_sum_abs_take(
                                lines_values(rest.take(i)),
                                pos + 1 - gstart,
                            );
                            assert(lines_values(rest.take(i)).take(pos + 1 - gstart) =~= gv2);
                        }
                    }
                    sum = sum + v;
                },
                None => {
                    proof {
                        assert(all[pos as int].len() != 0);
                        assert(false);
                    }
                },
            }
            pos = pos + 1;
        }
    }
    proof {
        let rest = all.skip(gstart);
        lemma_find_empty(rest);
        let i = find_empty(rest);
        assert forall|k: int| 0 <= k < rest.len() implies (#[trigger] rest[k]).len() != 0 by {
            assert(rest[k] == all[gstart + k]);
        }
        if i < rest.len() {
            assert(rest[i].len() != 0);
        }
        assert(i == rest.len());
        assert(rest.take(pos - gstart) =~= rest);
        assert(spec_group_sums(rest) == seq![arith::sum(lines_values(rest))]);
    }
    let ghost old_result = result@;
    result.push(sum);
    proof {
        assert(arith::ints(result@) =~= arith::ints(old_result).push(sum as int));
        assert(arith::ints(old_result).push(sum as int) =~= arith::ints(old_result)
            + spec_group_sums(all.skip(gstart)));
        assert(arith::ints(result@) =~= spec_group_sums(all));
    }
    result
}

/// The largest group sum, or zero if every sum is negative.
pub open spec fn spec_max0(s: Seq<i32>) -> int
    decreases s.len(),
{
    if s.len() == 0 {
        0
    } else if s.last() as int > spec_max0(s.drop_last()) {
        s.last() as int
    } else {
        spec_max0(s.drop_last())
    }
}

pub fn part1(vals: &[i32]) -> (r: i32)
    ensures
        r == spec_max0(vals@),
{
    let mut result: i32 = 0;
    let mut i: usize = 0;
    proof {
        assert(vals@.take(0) =~= Seq::<i32>::empty());
    }
    while i < vals.len()
        invariant
            i <= vals@.len(),
            result == spec_max0(vals@.take(i as int)),
        decreases vals@.len() - i,
    {
        proof {
            assert(vals@.take((i + 1) as int).drop_last() =~= vals@.take(i as int));
        }
        if vals[i] > result {
            result = vals[i];
        }
        i = i + 1;
    }
    proof {
        assert(vals@.take(vals@.len() as int) =~= vals@);
    }
    result
}

/// The three largest sums kept in a descending triple that starts at zero,
/// so negative sums never count.
pub open spec fn top3_clamped(s: Seq<i32>) -> (int, int, int)
    decreases s.len(),
{
    if s.len() == 0 {
        (0, 0, 0)
    } else {
        top3_insert(top3_clamped(s.drop_last()), s.last() as int)
    }
}

proof fn lemma_top3_clamped_bounds(s: Seq<i32>)
    ensures
        top3_clamped(s).0 >= top3_clamped(s).1 >= top3_clamped(s).2 >= 0,
        top3_clamped(s).0 + top3_clamped(s).1 + top3_clamped(s).2 <= 3 * arith::sum_abs(
            arith::ints(s),
        ),
    decreases s.len(),
{
    if s.len() == 0 {
    } else {
        lemma_top3_clamped_bounds(s.drop_last());
        arith::lemma_sum_bound(arith::ints(s));
        arith::lemma_sum_bound(arith::ints(s).drop_last());
        assert(arith::ints(s).drop_last() =~= arith::ints(s.drop_last()));
        assert(arith::sum_abs(arith::ints(s)) == arith::sum_abs(arith::ints(s.drop_last()))
            + arith::abs(s.last() as int));
    }
}

/// The sum of the three largest group sums, counting only positive ones.
pub fn part2(vals: &[i32]) -> (r: i32)
    requires
        arith::sum_abs(arith::ints(vals@)) * 3 <= i32::MAX,
    ensures
        r as int == top3_clamped(vals@).0 + top3_clamped(vals@).1 + top3_clamped(vals@).2,
{
    let ghost s = vals@;
    let mut a: i32 = 0;
    let mut b: i32 = 0;
    let mut c: i32 = 0;
    let mut i: usize = 0;
    proof {
        assert(s.take(0) =~= Seq::<i32>::empty());
        arith::lemma_sum_bound(arith::ints(s));
    }
    while i < vals.len()
        invariant
            i <= s.len(),
            s == vals@,
            (a as int, b as int, c as int) == top3_clamped(s.take(i as int)),
            a >= b >= c >= 0,
            a as int + b as int + c as int <= 3 * arith::sum_abs(arith::ints(s)),
        decreases s.len() - i,
    {
        proof {
            assert(s.take((i + 1) as int).drop_last() =~= s.take(i as int));
            assert(s.take((i + 1) as int).last() == s[i as int]);
            lemma_top3_clamped_bounds(s.take((i + 1) as int));
            assert(arith::ints(s.take((i + 1) as int)) =~= arith::ints(s).take((i + 1) as int));
            arith::lemma_sum_abs_take(arith::ints(s), (i + 1) as int);
        }
        let v = vals[i];
        if v > a {
            c = b;
            b = a;
            a = v;
        } else if v > b {
            c = b;
            b = v;
        } else if v > c {
            c = v;
        }
        i = i + 1;
    }
    proof {
        assert(s.take(s.len() as int) =~= s);
    }
    a + b + c
}

} // verus!
