//! Start-of-message markers over a caller-provided fixed buffer: the parse
//! step copies the input into the front of the buffer, leaving the rest as
//! it was.

use vstd::prelude::*;

verus! {

use crate::day06;
use crate::text;

/// Copies the input's characters over the front of `output`.
pub fn parse(input: &str, output: &mut Vec<char>)
    requires
        input@.len() <= old(output)@.len(),
    ensures
        final(output)@.len() == old(output)@.len(),
        forall|i: int| 0 <= i < input@.len() ==> final(output)@[i] == input@[i],
        forall|i: int| input@.len() <= i < old(output)@.len() ==> final(output)@[i] == old(
            output,
        )@[i],
{
    let chars = text::chars_of(input);
    let mut i: usize = 0;
    while i < chars.len()
        invariant
            i <= chars@.len(),
            chars@ == input@,
            input@.len() <= output@.len(),
            output@.len() == old(output)@.len(),
            forall|k: int| 0 <= k < i ==> output@[k] == input@[k],
            forall|k: int| i <= k < old(output)@.len() ==> output@[k] == old(output)@[k],
        decreases chars@.len() - i,
    {
        output[i] = chars[i];
        i = i + 1;
    }
}

/// One past the first position whose trailing four characters are distinct.
pub fn part1(puzzle: &[char]) -> (r: i32)
    requires
        4 <= puzzle@.len() <= i32::MAX,
    ensures
        (exists|idx: int|
            0 <= idx < puzzle@.len() && !day06::has_dup(
                #[trigger] day06::window(puzzle@, idx, 4),
            )) ==> {
            &&& 1 <= r <= puzzle@.len()
            &&& !day06::has_dup(day06::window(puzzle@, r - 1, 4))
            &&& forall|idx: int|
                0 <= idx < r - 1 ==> day06::has_dup(#[trigger] day06::window(puzzle@, idx, 4))
        },
        !(exists|idx: int|
            0 <= idx < puzzle@.len() && !day06::has_dup(
                #[trigger] day06::window(puzzle@, idx, 4),
            )) ==> r == 0,
{
    day06::find_marker(puzzle, 4)
}

/// One past the first position whose trailing fourteen characters are
/// distinct.
pub fn part2(puzzle: &[char]) -> (r: i32)
    requires
        14 <= puzzle@.len() <= i32::MAX,
    ensures
        (exists|idx: int|
            0 <= idx < puzzle@.len() && !day06::has_dup(
                #[trigger] day06::window(puzzle@, idx, 14),
            )) ==> {
            &&& 1 <= r <= puzzle@.len()
            &&& !day06::has_dup(day06::window(puzzle@, r - 1, 14))
            &&& forall|idx: int|
                0 <= idx < r - 1 ==> day06::has_dup(#[trigger] day06::window(puzzle@, idx, 14))
        },
        !(exists|idx: int|
            0 <= idx < puzzle@.len() && !day06::has_dup(
                #[trigger] day06::window(puzzle@, idx, 14),
            )) ==> r == 0,
{
    day06::find_marker(puzzle, 14)
}

} // verus!
