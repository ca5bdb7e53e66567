//! Rucksack reorganisation: each line splits into two halves sharing one
//! item; groups of three lines share one badge item. Items are scored by a
//! letter priority.

use vstd::prelude::*;

verus! {

use crate::arith;
use crate::text;
use vstd::utf8::is_ascii_chars;

/// The first character of `a` that also occurs in `b`.
pub open spec fn first_common(a: Seq<char>, b: Seq<char>) -> char {
    a[text::spec_find(a, |c: char| b.contains(c))]
}

pub open spec fn has_common(a: Seq<char>, b: Seq<char>) -> bool {
    text::spec_find(a, |c: char| b.contains(c)) < a.len()
}

/// The first character of `a` that occurs in both `b` and `c`.
pub open spec fn first_common3(a: Seq<char>, b: Seq<char>, c: Seq<char>) -> char {
    a[text::spec_find(a, |x: char| b.contains(x) && c.contains(x))]
}

pub open spec fn has_common3(a: Seq<char>, b: Seq<char>, c: Seq<char>) -> bool {
    text::spec_find(a, |x: char| b.contains(x) && c.contains(x)) < a.len()
}

/// Splits a rucksack's items into its two equally large compartments.
pub fn split_rucksack(s: &str) -> (r: (String, String))
    requires
        is_ascii_chars(s@),
    ensures
        r.0@ == s@.take((s@.len() / 2) as int),
        r.1@ == s@.skip((s@.len() / 2) as int),
{
    let v = text::chars_of(s);
    let n = s.unicode_len();
    let first = text::subrange_vec(&v, 0, n / 2);
    let second = text::subrange_vec(&v, n / 2, n);
    proof {
        assert(first@ =~= s@.take((s@.len() / 2) as int));
        assert(second@ =~= s@.skip((s@.len() / 2) as int));
    }
    (text::string_from_chars(&first), text::string_from_chars(&second))
}

/// The item common to both compartments: the first character of the first
/// compartment that the second also holds.
pub fn common_item(s1: &str, s2: &str) -> (r: char)
    requires
        has_common(s1@, s2@),
    ensures
        r == first_common(s1@, s2@),
{
    let v1 = text::chars_of(s1);
    let v2 = text::chars_of(s2);
    let ghost f = |c: char| s2@.contains(c);
    let mut i: usize = 0;
    while i < v1.len()
        invariant
            i <= v1@.len(),
            v1@ == s1@,
            v2@ == s2@,
            forall|k: int| 0 <= k < i ==> !s2@.contains(#[trigger] s1@[k]),
        decreases v1@.len() - i,
    {
        if text::contains_char(&v2, v1[i]) {
            proof {
                text::lemma_find_is(s1@, f, i as int);
            }
            return v1[i];
        }
        i = i + 1;
    }
    proof {
        text::lemma_find_is(s1@, f, s1@.len() as int);
        assert(false);
    }
    vstd::pervasive::unreached()
}

/// The badge item of a group of three rucksacks.
pub fn common_item_among_three(s1: &str, s2: &str, s3: &str) -> (r: char)
    requires
        has_common3(s1@, s2@, s3@),
    ensures
        r == first_common3(s1@, s2@, s3@),
{
    let v1 = text::chars_of(s1);
    let v2 = text::chars_of(s2);
    let v3 = text::chars_of(s3);
    let ghost f = |x: char| s2@.contains(x) && s3@.contains(x);
    let mut i: usize = 0;
    while i < v1.len()
        invariant
            i <= v1@.len(),
            v1@ == s1@,
            v2@ == s2@,
            v3@ == s3@,
            forall|k: int|
                0 <= k < i ==> !(s2@.contains(#[trigger] s1@[k]) && s3@.contains(s1@[k])),
        decreases v1@.len() - i,
    {
        if text::contains_char(&v2, v1[i]) && text::contains_char(&v3, v1[i]) {
            proof {
                text::lemma_find_is(s1@, f, i as int);
            }
            return v1[i];
        }
        i = i + 1;
    }
    proof {
        text::lemma_find_is(s1@, f, s1@.len() as int);
        assert(false);
    }
    vstd::pervasive::unreached()
}

/// Lowercase items score 1 to 26, uppercase 27 to 52, anything else 0.
pub open spec fn spec_priority(c: char) -> int {
    if 97 <= c as u32 <= 122 {
        c as u32 - 96
    } else if 65 <= c as u32 <= 90 {
        c as u32 - 64 + 26
    } else {
        0
    }
}

pub fn item_priority(ch: char) -> (r: i32)
    ensures
        r == spec_priority(ch),
{
    let u = ch as u32;
    if 97 <= u && u <= 122 {
        (u - 96) as i32
    } else if 65 <= u && u <= 90 {
        (u - 64 + 26) as i32
    } else {
        0
    }
}

/// Every line split in half.
pub open spec fn spec_parse1(s: Seq<char>) -> Seq<(Seq<char>, Seq<char>)> {
    text::spec_lines(s).map_values(
        |l: Seq<char>| (l.take((l.len() / 2) as int), l.skip((l.len() / 2) as int)),
    )
}

pub open spec fn lines_ascii(s: Seq<char>) -> bool {
    forall|i: int|
        0 <= i < text::spec_lines(s).len() ==> is_ascii_chars(#[trigger] text::spec_lines(s)[i])
}

pub fn parse1(input: &str) -> (r: Vec<(String, String)>)
    requires
        lines_ascii(input@),
    ensures
        r@.len() == spec_parse1(input@).len(),
        forall|i: int|
            0 <= i < r@.len() ==> (#[trigger] r@[i]).0@ == spec_parse1(input@)[i].0 && r@[i].1@
                == spec_parse1(input@)[i].1,
{
    let chars = text::chars_of(input);
    let lines = text::split_lines(&chars);
    let ghost spec = text::spec_lines(input@);
    let mut result: Vec<(String, String)> = Vec::new();
    let mut i: usize = 0;
    while i < lines.len()
        invariant
            i <= lines@.len(),
            lines@.map_values(|l: Vec<char>| l@) == spec,
            spec == text::spec_lines(input@),
            lines_ascii(input@),
            result@.len() == i,
            forall|j: int|
                0 <= j < i ==> (#[trigger] result@[j]).0@ == spec_parse1(input@)[j].0
                    && result@[j].1@ == spec_parse1(input@)[j].1,
        decreases lines@.len() - i,
    {
        assert(lines@[i as int]@ == spec[i as int]);
        let line = text::string_from_chars(&lines[i]);
        let pair = split_rucksack(line.as_str());
        result.push(pair);
        i = i + 1;
    }
    result
}

pub open spec fn priorities1(pairs: Seq<(Seq<char>, Seq<char>)>) -> Seq<int> {
    pairs.map_values(|p: (Seq<char>, Seq<char>)| spec_priority(first_common(p.0, p.1)))
}

pub open spec fn views2(pairs: Seq<(String, String)>) -> Seq<(Seq<char>, Seq<char>)> {
    pairs.map_values(|p: (String, String)| (p.0@, p.1@))
}

/// The summed priorities of each rucksack's shared item.
pub fn part1(vals: &[(String, String)]) -> (r: i32)
    requires
        vals@.len() * 52 <= i32::MAX,
        forall|i: int| 0 <= i < vals@.len() ==> has_common((#[trigger] vals@[i]).0@, vals@[i].1@),
    ensures
        r == arith::sum(priorities1(views2(vals@))),
{
    let ghost s = priorities1(views2(vals@));
    let mut total: i32 = 0;
    let mut i: usize = 0;
    proof {
        assert(s.take(0) =~= Seq::<int>::empty());
    }
    while i < vals.len()
        invariant
            i <= vals@.len(),
            s == priorities1(views2(vals@)),
            vals@.len() * 52 <= i32::MAX,
            forall|j: int|
                0 <= j < vals@.len() ==> has_common((#[trigger] vals@[j]).0@, vals@[j].1@),
            total == arith::sum(s.take(i as int)),
            0 <= total <= i * 52,
        decreases vals@.len() - i,
    {
        proof {
            arith::lemma_sum_take_step(s, i as int);
            assert(0 <= s[i as int] <= 52);
            assert((i + 1) * 52 == i * 52 + 52) by (nonlinear_arith);
            assert(i * 52 + 52 <= vals@.len() * 52) by (nonlinear_arith)
                requires
                    i + 1 <= vals@.len(),
            ;
        }
        let (s1, s2) = &vals[i];
        let c = common_item(s1.as_str(), s2.as_str());
        total = total + item_priority(c);
        i = i + 1;
    }
    proof {
        assert(s.take(vals@.len() as int) =~= s);
    }
    total
}

/// Lines taken three at a time.
pub open spec fn spec_parse2(s: Seq<char>) -> Seq<(Seq<char>, Seq<char>, Seq<char>)> {
    Seq::new(
        text::spec_lines(s).len() / 3,
        |i: int|
            (
                text::spec_lines(s)[3 * i],
                text::spec_lines(s)[3 * i + 1],
                text::spec_lines(s)[3 * i + 2],
            ),
    )
}

pub fn parse2(input: &str) -> (r: Vec<(String, String, String)>)
    requires
        text::spec_lines(input@).len() % 3 == 0,
    ensures
        r@.len() == spec_parse2(input@).len(),
        forall|i: int|
            0 <= i < r@.len() ==> (#[trigger] r@[i]).0@ == spec_parse2(input@)[i].0 && r@[i].1@
                == spec_parse2(input@)[i].1 && r@[i].2@ == spec_parse2(input@)[i].2,
{
    let chars = text::chars_of(input);
    let lines = text::split_lines(&chars);
    let ghost spec = text::spec_lines(input@);
    let mut result: Vec<(String, String, String)> = Vec::new();
    let mut i: usize = 0;
    while lines.len() - i > 2
        invariant
            i % 3 == 0,
            i <= lines@.len(),
            spec.len() % 3 == 0,
            lines@.map_values(|l: Vec<char>| l@) == spec,
            spec == text::spec_lines(input@),
            result@.len() == i / 3,
            forall|j: int|
                0 <= j < i / 3 ==> (#[trigger] result@[j]).0@ == spec_parse2(input@)[j].0
                    && result@[j].1@ == spec_parse2(input@)[j].1 && result@[j].2@ == spec_parse2(
                    input@,
                )[j].2,
        decreases lines@.len() - i,
    {
        assert(lines@[i as int]@ == spec[i as int]);
        assert(lines@[(i + 1) as int]@ == spec[(i + 1) as int]);
        assert(lines@[(i + 2) as int]@ == spec[(i + 2) as int]);
        let x = text::string_from_chars(&lines[i]);
        let y = text::string_from_chars(&lines[i + 1]);
        let z = text::string_from_chars(&lines[i + 2]);
        result.push((x, y, z));
        i = i + 3;
    }
    proof {
        assert(i == spec.len());
    }
    result
}

pub open spec fn priorities2(triples: Seq<(Seq<char>, Seq<char>, Seq<char>)>) -> Seq<int> {
    triples.map_values(
        |p: (Seq<char>, Seq<char>, Seq<char>)| spec_priority(first_common3(p.0, p.1, p.2)),
    )
}

pub open spec fn views3(triples: Seq<(String, String, String)>) -> Seq<
    (Seq<char>, Seq<char>, Seq<char>),
> {
    triples.map_values(|p: (String, String, String)| (p.0@, p.1@, p.2@))
}

/// The summed priorities of each group's badge item.
pub fn part2(vals: &[(String, String, String)]) -> (r: i32)
    requires
        vals@.len() * 52 <= i32::MAX,
        forall|i: int|
            0 <= i < vals@.len() ==> has_common3(
                (#[trigger] vals@[i]).0@,
                vals@[i].1@,
                vals@[i].2@,
            ),
    ensures
        r == arith::sum(priorities2(views3(vals@))),
{
    let ghost s = priorities2(views3(vals@));
    let mut total: i32 = 0;
    let mut i: usize = 0;
    proof {
        assert(s.take(0) =~= Seq::<int>::empty());
    }
    while i < vals.len()
        invariant
            i <= vals@.len(),
            s == priorities2(views3(vals@)),
            vals@.len() * 52 <= i32::MAX,
            forall|j: int|
                0 <= j < vals@.len() ==> has_common3(
                    (#[trigger] vals@[j]).0@,
                    vals@[j].1@,
                    vals@[j].2@,
                ),
            total == arith::sum(s.take(i as int)),
            0 <= total <= i * 52,
        decreases vals@.len() - i,
    {
        proof {
            arith::lemma_sum_take_step(s, i as int);
            assert(0 <= s[i as int] <= 52);
            assert((i + 1) * 52 == i * 52 + 52) by (nonlinear_arith);
            assert(i * 52 + 52 <= vals@.len() * 52) by (nonlinear_arith)
                requires
                    i + 1 <= vals@.len(),
            ;
        }
        let (s1, s2, s3) = &vals[i];
        let c = common_item_among_three(s1.as_str(), s2.as_str(), s3.as_str());
        total = total + item_priority(c);
        i = i + 1;
    }
    proof {
        assert(s.take(vals@.len() as int) =~= s);
    }
    total
}

} // verus!
