//! Rope physics: a head knot walks unit steps; the tail knot follows,
//! staying adjacent. Part one counts the distinct cells the tail visits.

use vstd::prelude::*;

verus! {

use crate::text;
use vstd::set::group_set_axioms;

pub enum Step {
    Left(u8),
    Right(u8),
    Up(u8),
    Down(u8),
}

#[derive(Debug, Clone, Copy, Eq, Hash, PartialEq, Structural)]
pub struct Point(pub i32, pub i32);

pub open spec fn ip(p: Point) -> (int, int) {
    (p.0 as int, p.1 as int)
}

/// Where the tail lands after the head has moved: unchanged when adjacent,
/// else pulled one step, sharing the head's row or column after a straight
/// pull.
pub open spec fn spec_follow(h: (int, int), t: (int, int)) -> (int, int) {
    let x = if h.0 - 1 > t.0 {
        h.0 - 1
    } else if h.0 + 1 < t.0 {
        h.0 + 1
    } else {
        t.0
    };
    let y = if h.1 - 1 > t.1 {
        h.1 - 1
    } else if h.1 + 1 < t.1 {
        h.1 + 1
    } else {
        t.1
    };
    let moved_x = x != t.0;
    let moved_y = y != t.1;
    if moved_x && !moved_y {
        (x, h.1)
    } else if moved_y && !moved_x {
        (h.0, y)
    } else {
        (x, y)
    }
}

pub fn follow_head(head: Point, tail: Point) -> (r: Point)
    requires
        i32::MIN < head.0 < i32::MAX,
        i32::MIN < head.1 < i32::MAX,
    ensures
        ip(r) == spec_follow(ip(head), ip(tail)),
{
    let mut result = tail;
    let mut moved_x = false;
    let mut moved_y = false;
    if head.0 - 1 > tail.0 {
        result.0 = head.0 - 1;
        moved_x = true;
    } else if head.0 + 1 < tail.0 {
        result.0 = head.0 + 1;
        moved_x = true;
    }
    if head.1 - 1 > tail.1 {
        result.1 = head.1 - 1;
        moved_y = true;
    } else if head.1 + 1 < tail.1 {
        result.1 = head.1 + 1;
        moved_y = true;
    }
    if moved_x && !moved_y {
        result.1 = head.1;
    } else if moved_y && !moved_x {
        result.0 = head.0;
    }
    result
}

pub open spec fn step_delta(s: Step) -> (int, int) {
    match s {
        Step::Left(_) => (-1int, 0int),
        Step::Right(_) => (1int, 0int),
        Step::Up(_) => (0int, 1int),
        Step::Down(_) => (0int, -1int),
    }
}

pub open spec fn step_dist(s: Step) -> int {
    match s {
        Step::Left(d) => d as int,
        Step::Right(d) => d as int,
        Step::Up(d) => d as int,
        Step::Down(d) => d as int,
    }
}

pub open spec fn total_dist(steps: Seq<Step>) -> int
    decreases steps.len(),
{
    if steps.len() == 0 {
        0
    } else {
        total_dist(steps.drop_last()) + step_dist(steps.last())
    }
}

pub struct SimState {
    pub head: (int, int),
    pub tail: (int, int),
    pub visited: Set<(int, int)>,
}

/// One unit move repeated `n` times, recording each tail position.
pub open spec fn sim_units(st: SimState, d: (int, int), n: nat) -> SimState
    decreases n,
{
    if n == 0 {
        st
    } else {
        let h2 = (st.head.0 + d.0, st.head.1 + d.1);
        let t2 = spec_follow(h2, st.tail);
        sim_units(
            SimState { head: h2, tail: t2, visited: st.visited.insert(t2) },
            d,
            (n - 1) as nat,
        )
    }
}

pub open spec fn sim_step(st: SimState, s: Step) -> SimState {
    sim_units(st, step_delta(s), step_dist(s) as nat)
}

/// The state after the first `i` parsed steps.
pub open spec fn sim_upto(steps: Seq<Step>, i: int) -> SimState
    decreases i,
{
    if i <= 0 {
        SimState { head: (0, 0), tail: (0, 0), visited: Set::empty() }
    } else {
        sim_step(sim_upto(steps, i - 1), steps[i - 1])
    }
}

pub open spec fn pmem(vs: Seq<Point>, p: (int, int)) -> bool {
    exists|i: int| 0 <= i < vs.len() && ip(#[trigger] vs[i]) == p
}

spec fn st_inv(st: SimState, bound: int, moved: int) -> bool {
    &&& -moved <= st.head.0 <= moved
    &&& -moved <= st.head.1 <= moved
    &&& -moved <= st.tail.0 <= moved
    &&& -moved <= st.tail.1 <= moved
    &&& st.visited.finite()
}

/// Simulation state stays within the distance walked so far.
proof fn lemma_sim_units_bounds(st: SimState, d: (int, int), n: nat, moved: int)
    requires
        st_inv(st, 0, moved),
        -1 <= d.0 <= 1,
        -1 <= d.1 <= 1,
        moved >= 0,
    ensures
        st_inv(sim_units(st, d, n), 0, moved + n),
    decreases n,
{
    if n > 0 {
        let h2 = (st.head.0 + d.0, st.head.1 + d.1);
        let t2 = spec_follow(h2, st.tail);
        lemma_sim_units_bounds(
            SimState { head: h2, tail: t2, visited: st.visited.insert(t2) },
            d,
            (n - 1) as nat,
            moved + 1,
        );
    }
}

/// Every line is a direction letter and a one-byte distance.
pub open spec fn spec_parse_step(l: Seq<char>) -> Option<Step> {
    let ts = text::spec_tokens(l);
    if ts.len() >= 2 && ts[0].len() >= 1 && text::spec_parse_u64(ts[1]) is Some
        && text::spec_parse_u64(ts[1])->0 <= 255 {
        let d = text::spec_parse_u64(ts[1])->0 as u8;
        if ts[0][0] == 'L' {
            Some(Step::Left(d))
        } else if ts[0][0] == 'R' {
            Some(Step::Right(d))
        } else if ts[0][0] == 'U' {
            Some(Step::Up(d))
        } else if ts[0][0] == 'D' {
            Some(Step::Down(d))
        } else {
            None
        }
    } else {
        None
    }
}

pub open spec fn parse_ok(s: Seq<char>) -> bool {
    forall|i: int|
        0 <= i < text::spec_lines(s).len() ==> spec_parse_step(
            #[trigger] text::spec_lines(s)[i],
        ) is Some
}

pub open spec fn parsed_steps(s: Seq<char>) -> Seq<Step> {
    text::spec_lines(s).map_values(|l: Seq<char>| spec_parse_step(l)->0)
}

/// Reads one movement per line: a direction letter, then a distance.
pub fn parse(input: &str) -> (r: Vec<Step>)
    requires
        parse_ok(input@),
    ensures
        r@ == parsed_steps(input@),
{
    let chars = text::chars_of(input);
    let lines = text::split_lines(&chars);
    let ghost spec = text::spec_lines(input@);
    let mut steps: Vec<Step> = Vec::new();
    let mut i: usize = 0;
    proof {
        assert(steps@ =~= parsed_steps(input@).take(0));
    }
    while i < lines.len()
        invariant
            i <= lines@.len(),
            lines@.map_values(|l: Vec<char>| l@) == spec,
            spec == text::spec_lines(input@),
            parse_ok(input@),
            steps@ == parsed_steps(input@).take(i as int),
        decreases lines@.len() - i,
    {
        let ghost l = spec[i as int];
        assert(lines@[i as int]@ == l);
        let toks = text::split_tokens(&lines[i]);
        proof {
            assert(spec_parse_step(l) is Some);
            assert(toks@.map_values(|t: Vec<char>| t@) == text::spec_tokens(l));
            assert(toks@[0]@ == text::spec_tokens(l)[0]);
            assert(toks@[1]@ == text::spec_tokens(l)[1]);
        }
        let direction = toks[0][0];
        let distance: u8 = match text::parse_u64_chars(toks[1].as_slice()) {
            Some(n) => {
                proof {
                    assert(n <= 255);
                }
                n as u8
            },
            None => {
                proof {
                    assert(false);
                }
                vstd::pervasive::unreached()
            },
        };
        let step = if direction == 'L' {
            Step::Left(distance)
        } else if direction == 'R' {
            Step::Right(distance)
        } else if direction == 'U' {
            Step::Up(distance)
        } else if direction == 'D' {
            Step::Down(distance)
        } else {
            proof {
                assert(false);
            }
            vstd::pervasive::unreached()
        };
        steps.push(step);
        proof {
            assert(steps@ =~= parsed_steps(input@).take((i + 1) as int));
        }
        i = i + 1;
    }
    proof {
        assert(steps@ =~= parsed_steps(input@));
    }
    steps
}

/// How many distinct cells the tail visits over the whole walk.
pub fn part1(steps: &[Step]) -> (r: usize)
    requires
        total_dist(steps@) < i32::MAX,
    ensures
        r == sim_upto(steps@, steps@.len() as int).visited.len(),
{
    broadcast use group_set_axioms;

    let ghost all = steps@;
    let mut head = Point(0, 0);
    let mut tail = Point(0, 0);
    let mut visited: Vec<Point> = Vec::new();
    let mut i: usize = 0;
    let ghost mut moved: int = 0;
    proof {
        lemma_total_dist_prefix(all, 0);
    }
    while i < steps.len()
        invariant
            i <= all.len(),
            all == steps@,
            total_dist(all) < i32::MAX,
            moved == total_dist(all.take(i as int)),
            0 <= moved <= total_dist(all),
            ({
                let st = sim_upto(all, i as int);
                &&& ip(head) == st.head
                &&& ip(tail) == st.tail
                &&& st.visited.finite()
                &&& st.visited.len() == visited@.len()
                &&& (forall|p: (int, int)| st.visited.contains(p) <==> pmem(visited@, p))
                &&& st_inv(st, 0, moved)
            }),
        decreases all.len() - i,
    {
        let ghost st0 = sim_upto(all, i as int);
        proof {
            lemma_total_dist_prefix(all, (i + 1) as int);
            assert(all.take((i + 1) as int).drop_last() =~= all.take(i as int));
            assert(all.take((i + 1) as int).last() == all[i as int]);
        }
        let step = &steps[i];
        let (dx, dy, dist): (i32, i32, u8) = match step {
            Step::Left(d) => (-1, 0, *d),
            Step::Right(d) => (1, 0, *d),
            Step::Up(d) => (0, 1, *d),
            Step::Down(d) => (0, -1, *d),
        };
        proof {
            assert(sim_upto(all, (i + 1) as int) == sim_step(st0, all[i as int]));
        }
        let mut k: u8 = 0;
        while k < dist
            invariant
                k <= dist,
                all == steps@,
                i < all.len(),
                total_dist(all) < i32::MAX,
                dx == step_delta(all[i as int]).0,
                dy == step_delta(all[i as int]).1,
                dist as int == step_dist(all[i as int]),
                moved == total_dist(all.take(i as int)) + k,
                0 <= total_dist(all.take(i as int)),
                total_dist(all.take((i + 1) as int)) == total_dist(all.take(i as int)) + dist,
                total_dist(all.take((i + 1) as int)) <= total_dist(all),
                ({
                    let st = sim_units(st0, (dx as int, dy as int), k as nat);
                    &&& sim_units(st0, (dx as int, dy as int), dist as nat) == sim_upto(
                        all,
                        (i + 1) as int,
                    )
                    &&& ip(head) == st.head
                    &&& ip(tail) == st.tail
                    &&& st.visited.finite()
                    &&& st.visited.len() == visited@.len()
                    &&& (forall|p: (int, int)| st.visited.contains(p) <==> pmem(visited@, p))
                    &&& st_inv(st, 0, moved)
                }),
            decreases dist - k,
        {
            let ghost st = sim_units(st0, (dx as int, dy as int), k as nat);
            proof {
                // One more unit: unfold the remaining-unit spec by one.
                lemma_sim_units_peel(st0, (dx as int, dy as int), k as nat, dist as nat);
            }
            head = Point(head.0 + dx, head.1 + dy);
            tail = follow_head(head, tail);
            let ghost st2 = sim_units(st0, (dx as int, dy as int), (k + 1) as nat);
            let mut seen = false;
            let mut j: usize = 0;
            while j < visited.len()
                invariant
                    j <= visited@.len(),
                    seen ==> pmem(visited@, ip(tail)),
                    !seen ==> forall|m: int| 0 <= m < j ==> ip(visited@[m]) != ip(tail),
                decreases visited@.len() - j,
            {
                if visited[j].0 == tail.0 && visited[j].1 == tail.1 {
                    seen = true;
                    proof {
                        assert(ip(visited@[j as int]) == ip(tail));
                    }
                    break ;
                }
                j = j + 1;
            }
            if !seen {
                let ghost old_visited = visited@;
                visited.push(tail);
                proof {
                    assert(pmem(visited@, ip(tail))) by {
                        assert(ip(visited@[old_visited.len() as int]) == ip(tail));
                    }
                    assert forall|p: (int, int)| #[trigger] pmem(visited@, p) && p != ip(tail)
                        implies pmem(old_visited, p) by {
                        let m = choose|m: int| 0 <= m < visited@.len() && ip(visited@[m]) == p;
                        assert(ip(old_visited[m]) == p);
                    }
                    assert forall|p: (int, int)| #[trigger] pmem(old_visited, p) implies pmem(
                        visited@,
                        p,
                    ) by {
                        let m = choose|m: int| 0 <= m < old_visited.len() && ip(old_visited[m])
                            == p;
                        assert(ip(visited@[m]) == p);
                    }
                    assert(!st.visited.contains(ip(tail)));
                    assert(st2.visited =~= st.visited.insert(ip(tail)));
                }
            } else {
                proof {
                    assert(st.visited.contains(ip(tail)));
                    assert(st2.visited =~= st.visited.insert(ip(tail)));
                    assert(st2.visited =~= st.visited);
                }
            }
            proof {
                moved = moved + 1;
            }
            k = k + 1;
        }
        i = i + 1;
    }
    proof {
        assert(all.take(all.len() as int) =~= all);
    }
    visited.len()
}

/// Splitting the walk after one more unit.
proof fn lemma_sim_units_peel(st: SimState, d: (int, int), k: nat, n: nat)
    requires
        k < n,
    ensures
        ({
            let mid = sim_units(st, d, k);
            let h2 = (mid.head.0 + d.0, mid.head.1 + d.1);
            let t2 = spec_follow(h2, mid.tail);
            sim_units(st, d, (k + 1) as nat) == sim_units(
                SimState { head: h2, tail: t2, visited: mid.visited.insert(t2) },
                d,
                0,
            ) && sim_units(st, d, (k + 1) as nat) == SimState {
                head: h2,
                tail: t2,
                visited: mid.visited.insert(t2),
            }
        }),
    decreases k,
{
    if k > 0 {
        let h2 = (st.head.0 + d.0, st.head.1 + d.1);
        let t2 = spec_follow(h2, st.tail);
        lemma_sim_units_peel(
            SimState { head: h2, tail: t2, visited: st.visited.insert(t2) },
            d,
            (k - 1) as nat,
            (n - 1) as nat,
        );
    }
}

proof fn lemma_total_dist_nonneg(steps: Seq<Step>)
    ensures
        total_dist(steps) >= 0,
    decreases steps.len(),
{
    if steps.len() > 0 {
        lemma_total_dist_nonneg(steps.drop_last());
    }
}

/// Prefix distances never exceed the total.
proof fn lemma_total_dist_prefix(steps: Seq<Step>, i: int)
    requires
        0 <= i <= steps.len(),
    ensures
        0 <= total_dist(steps.take(i)) <= total_dist(steps),
    decreases steps.len() - i,
{
    lemma_total_dist_nonneg(steps.take(i));
    if i < steps.len() {
        lemma_total_dist_prefix(steps, i + 1);
        assert(steps.take(i + 1).drop_last() =~= steps.take(i));
        assert(total_dist(steps.take(i + 1)) == total_dist(steps.take(i)) + step_dist(steps[i]));
    } else {
        assert(steps.take(i) =~= steps);
    }
}

} // verus!
