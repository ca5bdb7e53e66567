//! Cleanup assignments: each line holds two numeric ranges; part one counts
//! pairs where one range contains the other, part two counts overlaps.

use vstd::prelude::*;

verus! {

use crate::arith;
use crate::text;

#[derive(Clone, Copy)]
pub struct Assignment {
    pub low: i32,
    pub high: i32,
}

/// The text before the first `c`, and the text between the first and second
/// `c` (or the end), as the two fields of an assignment.
pub open spec fn spec_parse_assignment(s: Seq<char>) -> Option<Assignment> {
    let i = text::spec_find(s, |x: char| x == '-');
    if i == s.len() {
        None
    } else {
        let left = s.take(i);
        let rest = s.skip(i + 1);
        let right = rest.take(text::spec_find(rest, |x: char| x == '-'));
        if text::spec_parse_i32(left) is Some && text::spec_parse_i32(right) is Some {
            Some(
                Assignment {
                    low: text::spec_parse_i32(left)->0,
                    high: text::spec_parse_i32(right)->0,
                },
            )
        } else {
            None
        }
    }
}

impl Assignment {
    /// Reads `low-high`.
    pub fn parse(s: &str) -> (r: Self)
        requires
            spec_parse_assignment(s@) is Some,
        ensures
            r == spec_parse_assignment(s@)->0,
    {
        let v = text::chars_of(s);
        let i = text::find_char(&v, 0, '-');
        proof {
            text::lemma_find_is(s@, |x: char| x == '-', i as int);
        }
        assert(i < v.len()) by {
            if i == v@.len() {
                assert(spec_parse_assignment(s@) is None);
            }
        }
        let ghost rest = s@.skip((i + 1) as int);
        let j = text::find_char(&v, i + 1, '-');
        proof {
            assert forall|k: int| 0 <= k < j - i - 1 implies rest[k] != '-' by {
                assert(rest[k] == s@[i + 1 + k]);
            }
            if j < s@.len() {
                assert(rest[j - i - 1] == s@[j as int]);
            }
            text::lemma_find_is(rest, |x: char| x == '-', j - i - 1);
            assert(rest.take(j - i - 1) =~= s@.subrange((i + 1) as int, j as int));
            assert(s@.take(i as int) =~= s@.subrange(0, i as int));
        }
        let left = text::subrange_vec(&v, 0, i);
        let right = text::subrange_vec(&v, i + 1, j);
        let low = match text::parse_i32_chars(left.as_slice()) {
            Some(n) => n,
            None => {
                proof {
                    assert(false);
                }
                vstd::pervasive::unreached()
            },
        };
        let high = match text::parse_i32_chars(right.as_slice()) {
            Some(n) => n,
            None => {
                proof {
                    assert(false);
                }
                vstd::pervasive::unreached()
            },
        };
        Assignment { low, high }
    }

    /// Whether this range contains `other` entirely.
    pub fn contained_within(&self, other: &Assignment) -> (r: bool)
        ensures
            r == (self.low <= other.low && self.high >= other.high),
    {
        self.low <= other.low && self.high >= other.high
    }

    /// Whether the two ranges share any point.
    pub fn overlapping(&self, other: &Assignment) -> (r: bool)
        ensures
            r == spec_overlapping(*self, *other),
    {
        (self.low >= other.low && self.low <= other.high) || (self.high >= other.low && self.high
            <= other.high) || (self.low < other.low && self.high > other.high)
    }
}

pub open spec fn spec_contained(a: Assignment, b: Assignment) -> bool {
    a.low <= b.low && a.high >= b.high
}

pub open spec fn spec_overlapping(a: Assignment, b: Assignment) -> bool {
    (a.low >= b.low && a.low <= b.high) || (a.high >= b.low && a.high <= b.high) || (a.low < b.low
        && a.high > b.high)
}

/// Both ranges of the line, split at the first comma.
pub open spec fn spec_parse_pair(l: Seq<char>) -> Option<(Assignment, Assignment)> {
    let i = text::spec_find(l, |x: char| x == ',');
    if i == l.len() {
        None
    } else {
        let first = l.take(i);
        let rest = l.skip(i + 1);
        let second = rest.take(text::spec_find(rest, |x: char| x == ','));
        if spec_parse_assignment(first) is Some && spec_parse_assignment(second) is Some {
            Some((spec_parse_assignment(first)->0, spec_parse_assignment(second)->0))
        } else {
            None
        }
    }
}

pub open spec fn parse_ok(s: Seq<char>) -> bool {
    forall|i: int|
        0 <= i < text::spec_lines(s).len() ==> spec_parse_pair(
            #[trigger] text::spec_lines(s)[i],
        ) is Some
}

pub open spec fn parsed_pairs(s: Seq<char>) -> Seq<(Assignment, Assignment)> {
    text::spec_lines(s).map_values(|l: Seq<char>| spec_parse_pair(l)->0)
}

/// Reads one `low-high,low-high` pair per line.
pub fn parse(input: &str) -> (r: Vec<(Assignment, Assignment)>)
    requires
        parse_ok(input@),
    ensures
        r@ == parsed_pairs(input@),
{
    let chars = text::chars_of(input);
    let lines = text::split_lines(&chars);
    let ghost spec = text::spec_lines(input@);
    let mut result: Vec<(Assignment, Assignment)> = Vec::new();
    let mut idx: usize = 0;
    proof {
        assert(result@ =~= parsed_pairs(input@).take(0));
    }
    while idx < lines.len()
        invariant
            idx <= lines@.len(),
            lines@.map_values(|l: Vec<char>| l@) == spec,
            parse_ok(input@),
            spec == text::spec_lines(input@),
            result@ == parsed_pairs(input@).take(idx as int),
        decreases lines@.len() - idx,
    {
        let ghost l = spec[idx as int];
        assert(lines@[idx as int]@ == l);
        let line = &lines[idx];
        let i = text::find_char(line, 0, ',');
        proof {
            text::lemma_find_is(l, |x: char| x == ',', i as int);
            assert(i < l.len()) by {
                if i == l.len() {
                    assert(spec_parse_pair(l) is None);
                }
            }
        }
        assert(i < line.len());
        let ghost rest = l.skip((i + 1) as int);
        let j = text::find_char(line, i + 1, ',');
        proof {
            assert forall|k: int| 0 <= k < j - i - 1 implies rest[k] != ',' by {
                assert(rest[k] == l[i + 1 + k]);
            }
            if j < l.len() {
                assert(rest[j - i - 1] == l[j as int]);
            }
            text::lemma_find_is(rest, |x: char| x == ',', j - i - 1);
            assert(rest.take(j - i - 1) =~= l.subrange((i + 1) as int, j as int));
            assert(l.take(i as int) =~= l.subrange(0, i as int));
        }
        let first_chars = text::subrange_vec(line, 0, i);
        let second_chars = text::subrange_vec(line, i + 1, j);
        let first_str = text::string_from_chars(&first_chars);
        let second_str = text::string_from_chars(&second_chars);
        let a = Assignment::parse(first_str.as_str());
        let b = Assignment::parse(second_str.as_str());
        result.push((a, b));
        proof {
            assert(result@ =~= parsed_pairs(input@).take((idx + 1) as int));
        }
        idx = idx + 1;
    }
    proof {
        assert(result@ =~= parsed_pairs(input@));
    }
    result
}

pub open spec fn containment_flags(pairs: Seq<(Assignment, Assignment)>) -> Seq<int> {
    pairs.map_values(
        |p: (Assignment, Assignment)|
            if spec_contained(p.0, p.1) || spec_contained(p.1, p.0) {
                1int
            } else {
                0int
            },
    )
}

/// How many pairs have one range containing the other.
pub fn part1(pairs: &[(Assignment, Assignment)]) -> (r: i32)
    requires
        pairs@.len() <= i32::MAX,
    ensures
        r == arith::sum(containment_flags(pairs@)),
{
    let ghost s = containment_flags(pairs@);
    let mut result: i32 = 0;
    let mut i: usize = 0;
    proof {
        assert(s.take(0) =~= Seq::<int>::empty());
    }
    while i < pairs.len()
        invariant
            i <= pairs@.len(),
            s == containment_flags(pairs@),
            pairs@.len() <= i32::MAX,
            result == arith::sum(s.take(i as int)),
            0 <= result <= i,
        decreases pairs@.len() - i,
    {
        proof {
            arith::lemma_sum_take_step(s, i as int);
        }
        let (first, second) = &pairs[i];
        if first.contained_within(second) || second.contained_within(first) {
            result = result + 1;
        }
        i = i + 1;
    }
    proof {
        assert(s.take(pairs@.len() as int) =~= s);
    }
    result
}

pub open spec fn overlap_flags(pairs: Seq<(Assignment, Assignment)>) -> Seq<int> {
    pairs.map_values(
        |p: (Assignment, Assignment)|
            if spec_overlapping(p.0, p.1) {
                1int
            } else {
                0int
            },
    )
}

/// How many pairs overlap at all.
pub fn part2(pairs: &[(Assignment, Assignment)]) -> (r: i32)
    requires
        pairs@.len() <= i32::MAX,
    ensures
        r == arith::sum(overlap_flags(pairs@)),
{
    let ghost s = overlap_flags(pairs@);
    let mut result: i32 = 0;
    let mut i: usize = 0;
    proof {
        assert(s.take(0) =~= Seq::<int>::empty());
    }
    while i < pairs.len()
        invariant
            i <= pairs@.len(),
            s == overlap_flags(pairs@),
            pairs@.len() <= i32::MAX,
            result == arith::sum(s.take(i as int)),
            0 <= result <= i,
        decreases pairs@.len() - i,
    {
        proof {
            arith::lemma_sum_take_step(s, i as int);
        }
        let (first, second) = &pairs[i];
        if first.overlapping(second) {
            result = result + 1;
        }
        i = i + 1;
    }
    proof {
        assert(s.take(pairs@.len() as int) =~= s);
    }
    result
}

} // verus!
