//! A one-register machine: `noop` takes one cycle, `addx` two. Part one sums
//! the signal strength at cycles 20, 60, ..., 220; part two renders the
//! sprite raster the machine draws.

use vstd::prelude::*;

verus! {

use crate::text;

pub enum Op {
    NoOp,
    AddX(i32),
}

pub open spec fn spec_cycle_count(op: Op) -> int {
    match op {
        Op::NoOp => 1,
        Op::AddX(_) => 2,
    }
}

pub fn cycle_count(op: &Op) -> (r: i32)
    ensures
        r == spec_cycle_count(*op),
{
    match op {
        Op::NoOp => 1,
        Op::AddX(_) => 2,
    }
}

pub open spec fn op_abs(op: Op) -> int {
    match op {
        Op::NoOp => 0,
        Op::AddX(s) => crate::arith::abs(s as int),
    }
}

pub open spec fn total_abs(ops: Seq<Op>) -> int
    decreases ops.len(),
{
    if ops.len() == 0 {
        0
    } else {
        total_abs(ops.drop_last()) + op_abs(ops.last())
    }
}

proof fn lemma_total_abs_prefix(ops: Seq<Op>, i: int)
    requires
        0 <= i <= ops.len(),
    ensures
        0 <= total_abs(ops.take(i)) <= total_abs(ops),
    decreases ops.len() - i,
{
    lemma_total_abs_nonneg(ops.take(i));
    if i < ops.len() {
        lemma_total_abs_prefix(ops, i + 1);
        assert(ops.take(i + 1).drop_last() =~= ops.take(i));
    } else {
        assert(ops.take(i) =~= ops);
    }
}

proof fn lemma_total_abs_nonneg(ops: Seq<Op>)
    ensures
        total_abs(ops) >= 0,
    decreases ops.len(),
{
    if ops.len() > 0 {
        lemma_total_abs_nonneg(ops.drop_last());
    }
}

/// One machine cycle towards part one's sum: sample at 20, 60, 100, ...
pub open spec fn step_cycle(st: (int, int, int)) -> (int, int, int) {
    let c2 = st.1 + 1;
    if (c2 + 20) % 40 == 0 {
        (st.0, c2, st.2 + st.0 * c2)
    } else {
        (st.0, c2, st.2)
    }
}

pub open spec fn step_op(st: (int, int, int), op: Op) -> (int, int, int) {
    match op {
        Op::NoOp => step_cycle(st),
        Op::AddX(s) => {
            let st2 = step_cycle(step_cycle(st));
            (st2.0 + s, st2.1, st2.2)
        },
    }
}

/// The `(signal, cycles, sum)` state after the first `i` operations, with
/// the run cut off once 220 cycles have passed.
pub open spec fn run1_state(ops: Seq<Op>, i: int) -> (int, int, int)
    decreases i,
{
    if i <= 0 {
        (1, 0, 0)
    } else {
        let prev = run1_state(ops, i - 1);
        if prev.1 >= 220 {
            prev
        } else {
            step_op(prev, ops[i - 1])
        }
    }
}

/// Every line is `noop` or `addx` with a signed value.
pub open spec fn spec_parse_op(l: Seq<char>) -> Option<Op> {
    let ts = text::spec_tokens(l);
    if ts.len() >= 1 && ts[0] == seq!['n', 'o', 'o', 'p'] {
        Some(Op::NoOp)
    } else if ts.len() >= 2 && ts[0] == seq!['a', 'd', 'd', 'x'] && text::spec_parse_i32(
        ts[1],
    ) is Some {
        Some(Op::AddX(text::spec_parse_i32(ts[1])->0))
    } else {
        None
    }
}

pub open spec fn parse_ok(s: Seq<char>) -> bool {
    forall|i: int|
        0 <= i < text::spec_lines(s).len() ==> spec_parse_op(
            #[trigger] text::spec_lines(s)[i],
        ) is Some
}

pub open spec fn parsed_ops(s: Seq<char>) -> Seq<Op> {
    text::spec_lines(s).map_values(|l: Seq<char>| spec_parse_op(l)->0)
}

/// Reads one operation per line.
pub fn parse(input: &str) -> (r: Vec<Op>)
    requires
        parse_ok(input@),
    ensures
        r@ == parsed_ops(input@),
{
    let chars = text::chars_of(input);
    let lines = text::split_lines(&chars);
    let ghost spec = text::spec_lines(input@);
    let mut ops: Vec<Op> = Vec::new();
    let mut i: usize = 0;
    proof {
        assert(ops@ =~= parsed_ops(input@).take(0));
    }
    while i < lines.len()
        invariant
            i <= lines@.len(),
            lines@.map_values(|l: Vec<char>| l@) == spec,
            spec == text::spec_lines(input@),
            parse_ok(input@),
            ops@ == parsed_ops(input@).take(i as int),
        decreases lines@.len() - i,
    {
        let ghost l = spec[i as int];
        assert(lines@[i as int]@ == l);
        let toks = text::split_tokens(&lines[i]);
        proof {
            assert(spec_parse_op(l) is Some);
            assert(toks@.map_values(|t: Vec<char>| t@) == text::spec_tokens(l));
        }
        let t0 = &toks[0];
        assert(t0@ == text::spec_tokens(l)[0]);
        let is_noop = t0.len() == 4 && t0[0] == 'n' && t0[1] == 'o' && t0[2] == 'o' && t0[3]
            == 'p';
        proof {
            if is_noop {
                assert(t0@ =~= seq!['n', 'o', 'o', 'p']);
            } else {
                assert(t0@ != seq!['n', 'o', 'o', 'p']) by {
                    if t0@ == seq!['n', 'o', 'o', 'p'] {
                        assert(t0@.len() == 4 && t0@[0] == 'n' && t0@[1] == 'o' && t0@[2] == 'o'
                            && t0@[3] == 'p');
                    }
                }
            }
        }
        let op = if is_noop {
            Op::NoOp
        } else {
            proof {
                assert(toks@[1]@ == text::spec_tokens(l)[1]);
                assert(text::spec_tokens(l)[0] =~= seq!['a', 'd', 'd', 'x']);
            }
            match text::parse_i32_chars(toks[1].as_slice()) {
                Some(v) => Op::AddX(v),
                None => {
                    proof {
                        assert(false);
                    }
                    vstd::pervasive::unreached()
                },
            }
        };
        ops.push(op);
        proof {
            assert(ops@ =~= parsed_ops(input@).take((i + 1) as int));
        }
        i = i + 1;
    }
    proof {
        assert(ops@ =~= parsed_ops(input@));
    }
    ops
}

/// The summed signal strengths at cycles 20, 60, ..., 220.
pub fn part1(ops: &[Op]) -> (r: i32)
    requires
        (1 + total_abs(ops@)) * 1326 <= i32::MAX,
    ensures
        r == run1_state(ops@, ops@.len() as int).2,
{
    let ghost all = ops@;
    proof {
        lemma_total_abs_prefix(all, 0);
    }
    let mut result: i32 = 0;
    let mut signal: i32 = 1;
    let mut cycles: i32 = 0;
    let mut i: usize = 0;
    while i < ops.len()
        invariant
            i <= all.len(),
            all == ops@,
            (1 + total_abs(all)) * 1326 <= i32::MAX,
            (signal as int, cycles as int, result as int) == run1_state(all, i as int),
            crate::arith::abs(signal as int) <= 1 + total_abs(all.take(i as int)),
            0 <= total_abs(all.take(i as int)) <= total_abs(all),
            0 <= cycles <= 221,
            i < all.len() ==> cycles <= 219,
            crate::arith::abs(result as int) <= ((cycles + 20) / 40) * 221 * (1 + total_abs(all)),
            (cycles + 20) / 40 <= 6,
        decreases all.len() - i,
    {
        let ghost st0 = run1_state(all, i as int);
        proof {
            lemma_total_abs_prefix(all, (i + 1) as int);
            assert(all.take((i + 1) as int).drop_last() =~= all.take(i as int));
            assert(all.take((i + 1) as int).last() == all[i as int]);
            assert(run1_state(all, (i + 1) as int) == step_op(st0, all[i as int]));
        }
        let op = &ops[i];
        let n = cycle_count(op);
        let ghost t1 = 1 + total_abs(all);
        let mut c: i32 = 0;
        while c < n
            invariant
                0 <= c <= n,
                1 <= n <= 2,
                (1 + total_abs(all)) * 1326 <= i32::MAX,
                t1 == 1 + total_abs(all),
                crate::arith::abs(signal as int) <= t1,
                0 <= cycles <= 221,
                cycles <= 219 + c,
                crate::arith::abs(result as int) <= ((cycles + 20) / 40) * 221 * t1,
                (cycles + 20) / 40 <= 6,
                c == 0 ==> (signal as int, cycles as int, result as int) == st0,
                c == 1 ==> (signal as int, cycles as int, result as int) == step_cycle(st0),
                c == 2 ==> (signal as int, cycles as int, result as int) == step_cycle(
                    step_cycle(st0),
                ),
            decreases n - c,
        {
            proof {
                let t = t1;
                let s0 = ((cycles as int) + 20) / 40;
                let s1 = ((cycles as int) + 21) / 40;
                assert(0 <= s0 <= 6 && s0 <= s1 <= 6) by (nonlinear_arith)
                    requires
                        0 <= cycles <= 220,
                        s0 == ((cycles as int) + 20) / 40,
                        s1 == ((cycles as int) + 21) / 40,
                ;
                assert(-t <= signal as int <= t);
                assert(-(s0 * 221 * t) <= result as int <= s0 * 221 * t);
                assert(-(221 * t) <= (signal as int) * ((cycles as int) + 1) <= 221 * t)
                    by (nonlinear_arith)
                    requires
                        -t <= signal as int <= t,
                        0 <= (cycles as int) + 1 <= 221,
                        t >= 1,
                ;
                if ((cycles as int) + 21) % 40 == 0 {
                    assert(s1 == s0 + 1) by (nonlinear_arith)
                        requires
                            0 <= cycles,
                            ((cycles as int) + 21) % 40 == 0,
                            s0 == ((cycles as int) + 20) / 40,
                            s1 == ((cycles as int) + 21) / 40,
                    ;
                    assert(-(s1 * 221 * t) <= (result as int) + (signal as int) * ((cycles as int)
                        + 1) <= s1 * 221 * t) by (nonlinear_arith)
                        requires
                            -(s0 * 221 * t) <= result as int <= s0 * 221 * t,
                            -(221 * t) <= (signal as int) * ((cycles as int) + 1) <= 221 * t,
                            s1 == s0 + 1,
                            t >= 1,
                    ;
                } else {
                    assert(-(s1 * 221 * t) <= result as int <= s1 * 221 * t) by (nonlinear_arith)
                        requires
                            -(s0 * 221 * t) <= result as int <= s0 * 221 * t,
                            0 <= s0 <= s1,
                            t >= 1,
                    ;
                }
                assert(s1 * 221 * t <= 1326 * t) by (nonlinear_arith)
                    requires
                        0 <= s1 <= 6,
                        t >= 1,
                ;
                assert(1326 * t == t * 1326) by (nonlinear_arith);
            }
            cycles = cycles + 1;
            if (cycles + 20) % 40 == 0 {
                result = result + signal * cycles;
            }
            c = c + 1;
        }
        match op {
            Op::AddX(s) => {
                proof {
                    assert(op_abs(all[i as int]) == crate::arith::abs(*s as int));
                }
                signal = signal + *s;
            },
            _ => {},
        }
        proof {
            assert((signal as int, cycles as int, result as int) == run1_state(
                all,
                (i + 1) as int,
            ));
        }
        if cycles >= 220 {
            proof {
                lemma_run1_frozen(all, (i + 1) as int, all.len() as int);
            }
            return result;
        }
        i = i + 1;
    }
    result
}

/// Once 220 cycles have passed, later operations change nothing.
proof fn lemma_run1_frozen(ops: Seq<Op>, i: int, j: int)
    requires
        0 <= i <= j <= ops.len(),
        run1_state(ops, i).1 >= 220,
    ensures
        run1_state(ops, j) == run1_state(ops, i),
    decreases j - i,
{
    if i < j {
        lemma_run1_frozen(ops, i, j - 1);
    }
}

/// One rendered cycle: a newline at the line start, then a lit or dark
/// pixel depending on whether the sprite overlaps the beam.
pub open spec fn render_cycle(st: (int, int, Seq<char>)) -> (int, int, Seq<char>) {
    let pos = st.1 % 40;
    let nl: Seq<char> = if pos == 0 {
        seq!['\n']
    } else {
        Seq::empty()
    };
    let px: char = if pos - 1 <= st.0 <= pos + 1 {
        '#'
    } else {
        '.'
    };
    (st.0, st.1 + 1, st.2 + nl + seq![px])
}

pub open spec fn render_op(st: (int, int, Seq<char>), op: Op) -> (int, int, Seq<char>) {
    match op {
        Op::NoOp => render_cycle(st),
        Op::AddX(s) => {
            let st2 = render_cycle(render_cycle(st));
            (st2.0 + s, st2.1, st2.2)
        },
    }
}

pub open spec fn render_state(ops: Seq<Op>, i: int) -> (int, int, Seq<char>)
    decreases i,
{
    if i <= 0 {
        (1, 0, Seq::empty())
    } else {
        render_op(render_state(ops, i - 1), ops[i - 1])
    }
}

/// The full raster: all cycles, then two closing newlines.
pub open spec fn spec_render(ops: Seq<Op>) -> Seq<char> {
    render_state(ops, ops.len() as int).2 + seq!['\n', '\n']
}

/// Renders the raster the machine draws.
pub fn part2(ops: &[Op]) -> (r: String)
    requires
        1 + total_abs(ops@) <= i32::MAX,
        2 * ops@.len() <= i32::MAX,
    ensures
        r@ == spec_render(ops@),
{
    let ghost all = ops@;
    proof {
        lemma_total_abs_prefix(all, 0);
    }
    let mut out: Vec<char> = Vec::new();
    let mut signal: i32 = 1;
    let mut cycles: i32 = 0;
    let mut i: usize = 0;
    proof {
        assert(out@ =~= render_state(all, 0).2);
    }
    while i < ops.len()
        invariant
            i <= all.len(),
            all == ops@,
            1 + total_abs(all) <= i32::MAX,
            2 * all.len() <= i32::MAX,
            (signal as int, cycles as int) == (render_state(all, i as int).0, render_state(
                all,
                i as int,
            ).1),
            out@ == render_state(all, i as int).2,
            crate::arith::abs(signal as int) <= 1 + total_abs(all.take(i as int)),
            0 <= total_abs(all.take(i as int)) <= total_abs(all),
            0 <= cycles,
            cycles <= 2 * i,
        decreases all.len() - i,
    {
        let ghost st0 = render_state(all, i as int);
        proof {
            lemma_total_abs_prefix(all, (i + 1) as int);
            assert(all.take((i + 1) as int).drop_last() =~= all.take(i as int));
            assert(all.take((i + 1) as int).last() == all[i as int]);
            assert(render_state(all, (i + 1) as int) == render_op(st0, all[i as int]));
        }
        let op = &ops[i];
        let n = cycle_count(op);
        let mut c: i32 = 0;
        while c < n
            invariant
                0 <= c <= n,
                1 <= n <= 2,
                1 + total_abs(all) <= i32::MAX,
                2 * all.len() <= i32::MAX,
                i < all.len(),
                crate::arith::abs(signal as int) <= 1 + total_abs(all),
                0 <= cycles,
                cycles <= 2 * i + c,
                c == 0 ==> (signal as int, cycles as int, out@) == st0,
                c == 1 ==> (signal as int, cycles as int, out@) == render_cycle(st0),
                c == 2 ==> (signal as int, cycles as int, out@) == render_cycle(render_cycle(st0)),
            decreases n - c,
        {
            let pos = cycles % 40;
            if pos == 0 {
                out.push('\n');
            }
            if signal >= pos - 1 && signal <= pos + 1 {
                out.push('#');
            } else {
                out.push('.');
            }
            proof {
                let st = if c == 0 {
                    st0
                } else {
                    render_cycle(st0)
                };
                let stn = render_cycle(st);
                assert(out@ =~= stn.2);
            }
            cycles = cycles + 1;
            c = c + 1;
        }
        match op {
            Op::AddX(s) => {
                proof {
                    assert(op_abs(all[i as int]) == crate::arith::abs(*s as int));
                }
                signal = signal + *s;
            },
            _ => {},
        }
        i = i + 1;
    }
    out.push('\n');
    out.push('\n');
    proof {
        assert(all.take(all.len() as int) =~= all);
        assert(out@ =~= spec_render(all));
    }
    text::string_from_chars(&out)
}

} // verus!
