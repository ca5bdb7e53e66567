//! Start-of-message markers: the answer is one past the first position whose
//! trailing window of `k` characters holds no repeated character. Until `k`
//! characters have gone by, the window is simply the first `k` characters.

use vstd::prelude::*;

verus! {

use crate::text;

pub open spec fn has_dup(w: Seq<char>) -> bool {
    exists|i: int, j: int| 0 <= i < j < w.len() && w[i] == w[j]
}

/// The window examined after reading position `idx`.
pub open spec fn window_base(idx: int, k: int) -> int {
    if idx >= k - 1 {
        idx + 1 - k
    } else {
        0
    }
}

pub open spec fn window(p: Seq<char>, idx: int, k: int) -> Seq<char> {
    p.subrange(window_base(idx, k), window_base(idx, k) + k)
}

/// Whether `p[base..base + k]` repeats a character.
fn window_has_dup(p: &[char], base: usize, k: usize) -> (r: bool)
    requires
        base + k <= p@.len(),
    ensures
        r == has_dup(p@.subrange(base as int, base as int + k as int)),
{
    let ghost w = p@.subrange(base as int, base as int + k as int);
    let n = p.len();
    assert(n == p@.len());
    let mut a: usize = 0;
    while a < k
        invariant
            a <= k,
            base + k <= p@.len(),
            w == p@.subrange(base as int, base as int + k as int),
            forall|x: int, y: int| 0 <= x < a && x < y < k ==> w[x] != w[y],
        decreases k - a,
    {
        let mut b: usize = a + 1;
        while b < k
            invariant
                a < b <= k || (a + 1 == b && b > k),
                a < k,
                base + k <= p@.len(),
                w == p@.subrange(base as int, base as int + k as int),
                forall|x: int, y: int| 0 <= x < a && x < y < k ==> w[x] != w[y],
                forall|y: int| a < y < b ==> w[a as int] != w[y],
            decreases k - b,
        {
            if p[base + a] == p[base + b] {
                assert(w[a as int] == w[b as int]);
                return true;
            }
            assert(w[a as int] != w[b as int]);
            b = b + 1;
        }
        a = a + 1;
    }
    false
}

/// One past the first position whose window of `k` is duplicate-free, or
/// zero when there is none.
pub fn find_marker(puzzle: &[char], k: usize) -> (r: i32)
    requires
        1 <= k <= puzzle@.len(),
        puzzle@.len() <= i32::MAX,
    ensures
        (exists|idx: int|
            0 <= idx < puzzle@.len() && !has_dup(#[trigger] window(puzzle@, idx, k as int))) ==> {
            &&& 1 <= r <= puzzle@.len()
            &&& !has_dup(window(puzzle@, r - 1, k as int))
            &&& forall|idx: int|
                0 <= idx < r - 1 ==> has_dup(#[trigger] window(puzzle@, idx, k as int))
        },
        !(exists|idx: int|
            0 <= idx < puzzle@.len() && !has_dup(#[trigger] window(puzzle@, idx, k as int)))
            ==> r == 0,
{
    let mut idx: usize = 0;
    while idx < puzzle.len()
        invariant
            idx <= puzzle@.len(),
            1 <= k <= puzzle@.len(),
            puzzle@.len() <= i32::MAX,
            forall|i: int| 0 <= i < idx ==> has_dup(#[trigger] window(puzzle@, i, k as int)),
        decreases puzzle@.len() - idx,
    {
        let base = if idx + 1 >= k {
            idx + 1 - k
        } else {
            0
        };
        assert(base == window_base(idx as int, k as int));
        if !window_has_dup(puzzle, base, k) {
            proof {
                assert(window(puzzle@, idx as int, k as int) == puzzle@.subrange(
                    base as int,
                    base as int + k as int,
                ));
                assert(!has_dup(window(puzzle@, idx as int, k as int)));
            }
            return idx as i32 + 1;
        }
        idx = idx + 1;
    }
    0
}

/// The characters of the datastream.
pub fn parse(input: &str) -> (r: Vec<char>)
    ensures
        r@ == input@,
{
    text::chars_of(input)
}

/// One past the first position whose trailing four characters are distinct.
pub fn part1(puzzle: &[char]) -> (r: i32)
    requires
        4 <= puzzle@.len() <= i32::MAX,
    ensures
        (exists|idx: int|
            0 <= idx < puzzle@.len() && !has_dup(#[trigger] window(puzzle@, idx, 4))) ==> {
            &&& 1 <= r <= puzzle@.len()
            &&& !has_dup(window(puzzle@, r - 1, 4))
            &&& forall|idx: int| 0 <= idx < r - 1 ==> has_dup(#[trigger] window(puzzle@, idx, 4))
        },
        !(exists|idx: int| 0 <= idx < puzzle@.len() && !has_dup(#[trigger] window(puzzle@, idx, 4)))
            ==> r == 0,
{
    find_marker(puzzle, 4)
}

/// One past the first position whose trailing fourteen characters are
/// distinct.
pub fn part2(puzzle: &[char]) -> (r: i32)
    requires
        14 <= puzzle@.len() <= i32::MAX,
    ensures
        (exists|idx: int|
            0 <= idx < puzzle@.len() && !has_dup(#[trigger] window(puzzle@, idx, 14))) ==> {
            &&& 1 <= r <= puzzle@.len()
            &&& !has_dup(window(puzzle@, r - 1, 14))
            &&& forall|idx: int| 0 <= idx < r - 1 ==> has_dup(#[trigger] window(puzzle@, idx, 14))
        },
        !(exists|idx: int|
            0 <= idx < puzzle@.len() && !has_dup(#[trigger] window(puzzle@, idx, 14))) ==> r == 0,
{
    find_marker(puzzle, 14)
}

} // verus!
