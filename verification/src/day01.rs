//! Calorie counting: the input lists integers in groups separated by blank
//! lines; each group's sum is one value. Part one returns the largest value.

use vstd::prelude::*;

verus! {

use crate::arith;
use crate::text;

/// Why an input could not be parsed.
#[derive(Debug, PartialEq, Eq, Structural, Clone, Copy)]
pub enum ParseError {
    InvalidNumber,
}

/// The index of the first blank line, or the length if none is blank.
pub open spec fn find_blank(lines: Seq<Seq<char>>) -> int
    decreases lines.len(),
{
    if lines.len() == 0 {
        0
    } else if text::is_blank(lines[0]) {
        0
    } else {
        1 + find_blank(lines.drop_first())
    }
}

pub proof fn lemma_find_blank(lines: Seq<Seq<char>>)
    ensures
        0 <= find_blank(lines) <= lines.len(),
        forall|k: int| 0 <= k < find_blank(lines) ==> !text::is_blank(#[trigger] lines[k]),
        find_blank(lines) < lines.len() ==> text::is_blank(lines[find_blank(lines)]),
    decreases lines.len(),
{
    if lines.len() > 0 && !text::is_blank(lines[0]) {
        lemma_find_blank(lines.drop_first());
        assert forall|k: int| 0 <= k < find_blank(lines) implies !text::is_blank(
            #[trigger] lines[k],
        ) by {
            if k > 0 {
                assert(lines.drop_first()[k - 1] == lines[k]);
                assert(!text::is_blank(lines.drop_first()[k - 1]));
            }
        }
        if find_blank(lines) < lines.len() {
            assert(lines.drop_first()[find_blank(lines) - 1] == lines[find_blank(lines)]);
        }
    }
}

/// Groups: maximal runs of consecutive non-blank lines.
pub open spec fn spec_groups(lines: Seq<Seq<char>>) -> Seq<Seq<Seq<char>>>
    decreases lines.len(),
        via spec_groups_decreases
{
    if lines.len() == 0 {
        Seq::empty()
    } else if text::is_blank(lines[0]) {
        spec_groups(lines.drop_first())
    } else {
        let i = find_blank(lines);
        seq![lines.take(i)] + spec_groups(lines.skip(i))
    }
}

#[via_fn]
proof fn spec_groups_decreases(lines: Seq<Seq<char>>) {
    lemma_find_blank(lines);
    if lines.len() > 0 && !text::is_blank(lines[0]) {
        let i = find_blank(lines);
        assert(i >= 1) by {
            if i == 0 {
                assert(text::is_blank(lines[0]));
            }
        }
    }
}

/// Every whitespace-separated token of the line is a signed numeral.
pub open spec fn line_ok(l: Seq<char>) -> bool {
    forall|i: int|
        0 <= i < text::spec_tokens(l).len() ==> text::spec_parse_i32(
            #[trigger] text::spec_tokens(l)[i],
        ) is Some
}

/// The values of a line's tokens.
pub open spec fn line_values(l: Seq<char>) -> Seq<int> {
    text::spec_tokens(l).map_values(|t: Seq<char>| text::spec_parse_i32(t)->0 as int)
}

pub open spec fn line_sum(l: Seq<char>) -> int {
    arith::sum(line_values(l))
}

pub open spec fn line_abs(l: Seq<char>) -> int {
    arith::sum_abs(line_values(l))
}

pub open spec fn group_ok(glines: Seq<Seq<char>>) -> bool {
    forall|i: int| 0 <= i < glines.len() ==> line_ok(#[trigger] glines[i])
}

/// A group's value: the sum of all its tokens.
pub open spec fn group_sum(glines: Seq<Seq<char>>) -> int
    decreases glines.len(),
{
    if glines.len() == 0 {
        0
    } else {
        group_sum(glines.drop_last()) + line_sum(glines.last())
    }
}

pub open spec fn group_abs(glines: Seq<Seq<char>>) -> int
    decreases glines.len(),
{
    if glines.len() == 0 {
        0
    } else {
        group_abs(glines.drop_last()) + line_abs(glines.last())
    }
}

pub open spec fn input_groups(s: Seq<char>) -> Seq<Seq<Seq<char>>> {
    spec_groups(text::spec_lines(s))
}

/// Every token of every group is a signed numeral.
pub open spec fn parse_ok(s: Seq<char>) -> bool {
    forall|i: int| 0 <= i < input_groups(s).len() ==> group_ok(#[trigger] input_groups(s)[i])
}

/// The machine-limit bound under which no group sum can overflow.
pub open spec fn sums_bounded(s: Seq<char>) -> bool {
    forall|i: int|
        0 <= i < input_groups(s).len() && group_ok(#[trigger] input_groups(s)[i]) ==> group_abs(
            input_groups(s)[i],
        ) <= i32::MAX
}

/// The group sums, in input order.
pub open spec fn parsed_values(s: Seq<char>) -> Seq<i32> {
    input_groups(s).map_values(|glines: Seq<Seq<char>>| group_sum(glines) as i32)
}

/// The largest value, or zero when there is none.
pub open spec fn spec_max(s: Seq<i32>) -> int
    decreases s.len(),
{
    if s.len() == 0 {
        0
    } else if s.len() == 1 {
        s[0] as int
    } else if s.last() as int > spec_max(s.drop_last()) {
        s.last() as int
    } else {
        spec_max(s.drop_last())
    }
}

/// Splits a text into groups of non-blank lines.
pub fn split_groups(lines: &Vec<Vec<char>>) -> (r: Vec<Vec<Vec<char>>>)
    ensures
        r@.map_values(|g: Vec<Vec<char>>| g@.map_values(|l: Vec<char>| l@)) == spec_groups(
            lines@.map_values(|l: Vec<char>| l@),
        ),
{
    let ghost ls = lines@.map_values(|l: Vec<char>| l@);
    let mut r: Vec<Vec<Vec<char>>> = Vec::new();
    let mut pos: usize = 0;
    proof {
        assert(ls.skip(0) =~= ls);
        assert(r@.map_values(|g: Vec<Vec<char>>| g@.map_values(|l: Vec<char>| l@)) + spec_groups(
            ls,
        ) =~= spec_groups(ls));
    }
    while pos < lines.len()
        invariant
            pos <= ls.len(),
            ls == lines@.map_values(|l: Vec<char>| l@),
            spec_groups(ls) == r@.map_values(|g: Vec<Vec<char>>| g@.map_values(|l: Vec<char>| l@))
                + spec_groups(ls.skip(pos as int)),
        decreases ls.len() - pos,
    {
        let ghost rest = ls.skip(pos as int);
        if text::is_blank_line(&lines[pos]) {
            proof {
                assert(rest[0] == ls[pos as int]);
                assert(rest.drop_first() =~= ls.skip((pos + 1) as int));
            }
            pos = pos + 1;
        } else {
            let mut g: Vec<Vec<char>> = Vec::new();
            let mut j = pos;
            while j < lines.len() && !text::is_blank_line(&lines[j])
                invariant
                    pos <= j <= ls.len(),
                    ls == lines@.map_values(|l: Vec<char>| l@),
                    forall|k: int| pos <= k < j ==> !text::is_blank(#[trigger] ls[k]),
                    g@.map_values(|l: Vec<char>| l@) == ls.subrange(pos as int, j as int),
                decreases ls.len() - j,
            {
                let ghost old_g = g@;
                g.push(lines[j].clone());
                proof {
                    assert(lines@[j as int]@ == ls[j as int]);
                    assert(g@.map_values(|l: Vec<char>| l@) =~= ls.subrange(
                        pos as int,
                        (j + 1) as int,
                    ));
                }
                j = j + 1;
            }
            proof {
                lemma_find_blank(rest);
                let i = find_blank(rest);
                assert(rest[0] == ls[pos as int]);
                assert forall|k: int| 0 <= k < j - pos implies !text::is_blank(
                    #[trigger] rest[k],
                ) by {
                    assert(rest[k] == ls[pos + k]);
                }
                if i < j - pos {
                    assert(text::is_blank(rest[i]));
                }
                if j < ls.len() {
                    assert(rest[j - pos] == ls[j as int]);
                    assert(text::is_blank(rest[j - pos]) && j - pos < rest.len());
                    if i > j - pos {
                        assert(!text::is_blank(rest[j - pos]));
                    }
                }
                assert(i == j - pos);
                assert(rest.take(i) =~= ls.subrange(pos as int, j as int));
                assert(rest.skip(i) =~= ls.skip(j as int));
                assert(spec_groups(rest) =~= seq![rest.take(i)] + spec_groups(ls.skip(j as int)));
            }
            let ghost old_r = r@;
            r.push(g);
            proof {
                assert(r@.map_values(|g2: Vec<Vec<char>>| g2@.map_values(|l: Vec<char>| l@))
                    =~= old_r.map_values(|g2: Vec<Vec<char>>| g2@.map_values(|l: Vec<char>| l@))
                    + seq![g@.map_values(|l: Vec<char>| l@)]);
            }
            pos = j;
        }
    }
    proof {
        assert(spec_groups(ls.skip(pos as int)) =~= Seq::<Seq<Seq<char>>>::empty());
        assert(r@.map_values(|g: Vec<Vec<char>>| g@.map_values(|l: Vec<char>| l@)) =~= spec_groups(
            ls,
        ));
    }
    r
}

/// The values of all tokens of a group, line by line.
pub open spec fn group_values(glines: Seq<Seq<char>>) -> Seq<int>
    decreases glines.len(),
{
    if glines.len() == 0 {
        Seq::empty()
    } else {
        group_values(glines.drop_last()) + line_values(glines.last())
    }
}

/// A group's sum and weight are those of its token values.
proof fn lemma_group_values(glines: Seq<Seq<char>>)
    ensures
        arith::sum(group_values(glines)) == group_sum(glines),
        arith::sum_abs(group_values(glines)) == group_abs(glines),
    decreases glines.len(),
{
    if glines.len() > 0 {
        lemma_group_values(glines.drop_last());
        arith::lemma_sum_concat(group_values(glines.drop_last()), line_values(glines.last()));
    }
}

/// Sums every token of one group, or reports the first bad token.
fn sum_group(g: &Vec<Vec<char>>) -> (r: Result<i32, ParseError>)
    requires
        group_ok(g@.map_values(|l: Vec<char>| l@)) ==> group_abs(
            g@.map_values(|l: Vec<char>| l@),
        ) <= i32::MAX,
    ensures
        group_ok(g@.map_values(|l: Vec<char>| l@)) ==> r == Ok::<i32, ParseError>(
            group_sum(g@.map_values(|l: Vec<char>| l@)) as i32,
        ),
        !group_ok(g@.map_values(|l: Vec<char>| l@)) ==> r is Err,
{
    let ghost gl = g@.map_values(|l: Vec<char>| l@);
    let mut vals: Vec<i32> = Vec::new();
    let mut i: usize = 0;
    proof {
        assert(gl.take(0) =~= Seq::<Seq<char>>::empty());
        assert(arith::ints(vals@) =~= group_values(gl.take(0)));
    }
    while i < g.len()
        invariant
            i <= gl.len(),
            gl == g@.map_values(|l: Vec<char>| l@),
            forall|m: int| 0 <= m < i ==> line_ok(#[trigger] gl[m]),
            arith::ints(vals@) == group_values(gl.take(i as int)),
        decreases gl.len() - i,
    {
        let ghost l = gl[i as int];
        assert(g@[i as int]@ == l);
        let toks = text::split_tokens(&g[i]);
        let ghost ts = line_values(l);
        let mut k: usize = 0;
        proof {
            assert(ts.take(0) =~= Seq::<int>::empty());
            assert(arith::ints(vals@) + ts.take(0) =~= arith::ints(vals@));
        }
        let ghost vals0 = vals@;
        while k < toks.len()
            invariant
                k <= toks@.len(),
                toks@.map_values(|t: Vec<char>| t@) == text::spec_tokens(l),
                ts == line_values(l),
                ts.len() == toks@.len(),
                l == gl[i as int],
                i < gl.len(),
                gl == g@.map_values(|l2: Vec<char>| l2@),
                forall|m: int|
                    0 <= m < k ==> text::spec_parse_i32(#[trigger] text::spec_tokens(l)[m]) is Some,
                forall|m: int| 0 <= m < i ==> line_ok(#[trigger] gl[m]),
                arith::ints(vals@) == group_values(gl.take(i as int)) + ts.take(k as int),
                arith::ints(vals0) == group_values(gl.take(i as int)),
            decreases toks@.len() - k,
        {
            assert(toks@[k as int]@ == text::spec_tokens(l)[k as int]);
            match text::parse_i32_chars(toks[k].as_slice()) {
                Some(v) => {
                    proof {
                        assert(ts[k as int] == v as int);
                    }
                    let ghost prev = vals@;
                    vals.push(v);
                    proof {
                        let gv = group_values(gl.take(i as int));
                        assert(arith::ints(vals@) =~= arith::ints(prev).push(v as int));
                        assert(ts.take((k + 1) as int) =~= ts.take(k as int).push(v as int));
                        assert(gv + ts.take(k as int).push(v as int) =~= (gv + ts.take(
                            k as int,
                        )).push(v as int));
                        assert(arith::ints(vals@) == gv + ts.take((k + 1) as int));
                    }
                },
                None => {
                    proof {
                        assert(!line_ok(l));
                        assert(!group_ok(gl));
                    }
                    return Err(ParseError::InvalidNumber);
                },
            }
            k = k + 1;
        }
        proof {
            assert(ts.take(ts.len() as int) =~= ts);
            assert(line_ok(l));
            assert(gl.take((i + 1) as int).drop_last() =~= gl.take(i as int));
            assert(gl.take((i + 1) as int).last() == l);
            assert(group_values(gl.take((i + 1) as int)) == group_values(gl.take(i as int))
                + line_values(l));
        }
        i = i + 1;
    }
    proof {
        assert(gl.take(gl.len() as int) =~= gl);
        assert(group_ok(gl));
        lemma_group_values(gl);
    }
    let total = arith::sum_i32(vals.as_slice());
    Ok(total)
}

/// Parses the blank-line-separated groups into their sums.
pub fn parse(input: &str) -> (r: Result<Vec<i32>, ParseError>)
    requires
        sums_bounded(input@),
    ensures
        parse_ok(input@) ==> r is Ok && r->Ok_0@ == parsed_values(input@),
        !parse_ok(input@) ==> r is Err,
{
    let chars = text::chars_of(input);
    let lines = text::split_lines(&chars);
    let groups = split_groups(&lines);
    let ghost gs = input_groups(input@);
    let mut vals: Vec<i32> = Vec::new();
    let mut i: usize = 0;
    proof {
        assert(vals@ =~= parsed_values(input@).take(0));
    }
    while i < groups.len()
        invariant
            i <= groups@.len(),
            groups@.map_values(|g: Vec<Vec<char>>| g@.map_values(|l: Vec<char>| l@)) == gs,
            gs == input_groups(input@),
            sums_bounded(input@),
            forall|j: int| 0 <= j < i ==> group_ok(#[trigger] gs[j]),
            vals@ == parsed_values(input@).take(i as int),
        decreases groups@.len() - i,
    {
        assert(groups@[i as int]@.map_values(|l: Vec<char>| l@) == gs[i as int]);
        match sum_group(&groups[i]) {
            Ok(v) => {
                vals.push(v);
                proof {
                    assert(vals@ =~= parsed_values(input@).take((i + 1) as int));
                }
            },
            Err(e) => {
                proof {
                    assert(!group_ok(gs[i as int]));
                    assert(!parse_ok(input@));
                }
                return Err(e);
            },
        }
        i = i + 1;
    }
    proof {
        assert(vals@ =~= parsed_values(input@));
    }
    Ok(vals)
}

/// The largest group sum, or zero when there is none.
pub fn part1(vals: &[i32]) -> (r: i32)
    ensures
        r == spec_max(vals@),
{
    let mut best: i32 = 0;
    let mut started = false;
    let mut i: usize = 0;
    while i < vals.len()
        invariant
            i <= vals@.len(),
            !started ==> i == 0 && best == 0,
            started ==> i >= 1 && best == spec_max(vals@.take(i as int)),
        decreases vals@.len() - i,
    {
        proof {
            assert(vals@.take((i + 1) as int).drop_last() =~= vals@.take(i as int));
        }
        if !started {
            best = vals[i];
            started = true;
            proof {
                assert(vals@.take(1)[0] == vals@[0]);
            }
        } else {
            if vals[i] > best {
                best = vals[i];
            }
        }
        i = i + 1;
    }
    proof {
        if vals@.len() > 0 {
            assert(vals@.take(vals@.len() as int) =~= vals@);
        }
    }
    best
}

/// A placeholder second answer.
pub fn part2(vals: &[i32]) -> (r: i32)
    ensures
        r == 42,
{
    let _ = vals;
    42
}

/// Parses the input and returns both answers.
pub fn run(input: &str) -> (r: Result<(i32, i32), ParseError>)
    requires
        sums_bounded(input@),
    ensures
        parse_ok(input@) ==> r == Ok::<(i32, i32), ParseError>(
            (spec_max(parsed_values(input@)) as i32, 42),
        ),
        !parse_ok(input@) ==> r is Err,
{
    let parsed = parse(input)?;
    let p1 = part1(parsed.as_slice());
    let p2 = part2(parsed.as_slice());
    Ok((p1, p2))
}

} // verus!
