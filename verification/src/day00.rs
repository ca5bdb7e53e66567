//! A scaffold solver: one integer per line; part one sums them, part two
//! doubles the sum.

use vstd::prelude::*;

verus! {

use crate::arith::{sum, sum_abs};
use crate::text;

/// Why an input could not be parsed.
#[derive(Debug, PartialEq, Eq, Structural, Clone, Copy)]
pub enum ParseError {
    InvalidNumber,
}

pub open spec fn ints(vals: Seq<i32>) -> Seq<int> {
    vals.map_values(|x: i32| x as int)
}

/// Every line of the input is a signed numeral.
pub open spec fn parse_ok(s: Seq<char>) -> bool {
    forall|i: int|
        0 <= i < text::spec_lines(s).len() ==> text::spec_parse_i32(
            #[trigger] text::spec_lines(s)[i],
        ) is Some
}

/// The value of each line, in order.
pub open spec fn parsed_values(s: Seq<char>) -> Seq<i32> {
    text::spec_lines(s).map_values(|l: Seq<char>| text::spec_parse_i32(l)->0)
}

pub fn parse(input: &str) -> (r: Result<Vec<i32>, ParseError>)
    ensures
        parse_ok(input@) ==> r is Ok && r->Ok_0@ == parsed_values(input@),
        !parse_ok(input@) ==> r == Err::<Vec<i32>, ParseError>(ParseError::InvalidNumber),
{
    let chars = text::chars_of(input);
    let lines = text::split_lines(&chars);
    let ghost spec = text::spec_lines(input@);
    let mut vals: Vec<i32> = Vec::new();
    let mut i: usize = 0;
    while i < lines.len()
        invariant
            i <= lines@.len(),
            lines@.map_values(|l: Vec<char>| l@) == spec,
            forall|j: int| 0 <= j < i ==> text::spec_parse_i32(#[trigger] spec[j]) is Some,
            vals@ == parsed_values(input@).take(i as int),
        decreases lines@.len() - i,
    {
        assert(lines@[i as int]@ == spec[i as int]);
        match text::parse_i32_chars(lines[i].as_slice()) {
            Some(n) => {
                vals.push(n);
                proof {
                    assert(vals@ =~= parsed_values(input@).take((i + 1) as int));
                }
            },
            None => {
                return Err(ParseError::InvalidNumber);
            },
        }
        i = i + 1;
    }
    proof {
        assert(vals@ =~= parsed_values(input@));
    }
    Ok(vals)
}

pub fn part1(vals: &[i32]) -> (r: i32)
    requires
        sum_abs(ints(vals@)) <= i32::MAX,
    ensures
        r == sum(ints(vals@)),
{
    let ghost s = ints(vals@);
    let mut total: i32 = 0;
    let mut i: usize = 0;
    proof {
        assert(s.take(0) =~= Seq::<int>::empty());
    }
    while i < vals.len()
        invariant
            i <= vals@.len(),
            s == ints(vals@),
            total == sum(s.take(i as int)),
        decreases vals@.len() - i,
    {
        proof {
            crate::arith::lemma_sum_take_step(s, i as int);
            crate::arith::lemma_sum_abs_take(s, i + 1);
            crate::arith::lemma_sum_bound(s.take((i + 1) as int));
        }
        total = total + vals[i];
        i = i + 1;
    }
    proof {
        assert(s.take(vals@.len() as int) =~= s);
    }
    total
}

pub fn part2(vals: &[i32]) -> (r: i32)
    requires
        sum_abs(ints(vals@)) * 2 <= i32::MAX,
    ensures
        r == sum(ints(vals@)) * 2,
{
    proof {
        crate::arith::lemma_sum_bound(ints(vals@));
    }
    let subtot: i32 = part1(vals);
    subtot * 2
}

/// Parses the input and returns both answers.
pub fn run(input: &str) -> (r: Result<(i32, i32), ParseError>)
    requires
        parse_ok(input@) ==> sum_abs(ints(parsed_values(input@))) * 2 <= i32::MAX,
    ensures
        parse_ok(input@) ==> r == Ok::<(i32, i32), ParseError>(
            (
                sum(ints(parsed_values(input@))) as i32,
                (sum(ints(parsed_values(input@))) * 2) as i32,
            ),
        ),
        !parse_ok(input@) ==> r is Err,
{
    let parsed = parse(input)?;
    proof {
        crate::arith::lemma_sum_bound(ints(parsed@));
    }
    let p1 = part1(parsed.as_slice());
    let p2 = part2(parsed.as_slice());
    Ok((p1, p2))
}

} // verus!
