//! Supply stacks: a drawing of crate stacks followed by `move` commands.
//! Part one moves crates one at a time; part two moves each batch in one
//! lift, keeping its order.

use vstd::prelude::*;

verus! {

use crate::text;

#[derive(Debug, PartialEq, Eq, Structural, Clone, Copy)]
pub struct Command {
    pub quantity: usize,
    pub from: usize,
    pub to: usize,
}

/// `move Q from F to T`, token by token.
pub open spec fn spec_parse_command(l: Seq<char>) -> Option<Command> {
    let ts = text::spec_tokens(l);
    if ts.len() >= 6 && ts[0] == seq!['m', 'o', 'v', 'e'] && ts[2] == seq!['f', 'r', 'o', 'm']
        && ts[4] == seq!['t', 'o'] && text::spec_parse_usize(ts[1]) is Some
        && text::spec_parse_usize(ts[3]) is Some && text::spec_parse_usize(ts[5]) is Some {
        Some(
            Command {
                quantity: text::spec_parse_usize(ts[1])->0,
                from: text::spec_parse_usize(ts[3])->0,
                to: text::spec_parse_usize(ts[5])->0,
            },
        )
    } else {
        None
    }
}

impl Command {
    /// Reads `move Q from F to T`.
    pub fn parse(s: &str) -> (r: Command)
        requires
            spec_parse_command(s@) is Some,
        ensures
            r == spec_parse_command(s@)->0,
    {
        let chars = text::chars_of(s);
        let toks = text::split_tokens(&chars);
        proof {
            assert(toks@.map_values(|t: Vec<char>| t@) == text::spec_tokens(s@));
            assert(toks@[1]@ == text::spec_tokens(s@)[1]);
            assert(toks@[3]@ == text::spec_tokens(s@)[3]);
            assert(toks@[5]@ == text::spec_tokens(s@)[5]);
        }
        let quantity = match text::parse_usize_chars(toks[1].as_slice()) {
            Some(n) => n,
            None => {
                proof {
                    assert(false);
                }
                vstd::pervasive::unreached()
            },
        };
        let from = match text::parse_usize_chars(toks[3].as_slice()) {
            Some(n) => n,
            None => {
                proof {
                    assert(false);
                }
                vstd::pervasive::unreached()
            },
        };
        let to = match text::parse_usize_chars(toks[5].as_slice()) {
            Some(n) => n,
            None => {
                proof {
                    assert(false);
                }
                vstd::pervasive::unreached()
            },
        };
        Command { quantity, from, to }
    }
}

#[derive(Debug, Clone)]
pub struct Puzzle {
    pub stacks: Vec<Vec<char>>,
    pub commands: Vec<Command>,
}

pub open spec fn stacks_view(stacks: Seq<Vec<char>>) -> Seq<Seq<char>> {
    stacks.map_values(|s: Vec<char>| s@)
}

/// How many four-column cells a drawing line spans.
pub open spec fn nchunks(l: Seq<char>) -> int {
    (l.len() as int + 3) / 4
}

/// The stacks after reading the first `j` cells of one drawing line,
/// top-down: a cell's second column holds the crate letter, and a blank
/// means no crate at this height.
pub open spec fn stacks_after_chunks(stacks: Seq<Seq<char>>, l: Seq<char>, j: int) -> Seq<
    Seq<char>,
>
    decreases j,
{
    if j <= 0 {
        stacks
    } else {
        let st = stacks_after_chunks(stacks, l, j - 1);
        let st2 = if st.len() <= j - 1 {
            st.push(Seq::empty())
        } else {
            st
        };
        let c = l[4 * (j - 1) + 1];
        if c != ' ' {
            st2.update(j - 1, st2[j - 1].push(c))
        } else {
            st2
        }
    }
}

/// Reading `j` cells leaves at least `j` stacks, and never drops one.
proof fn lemma_chunks_len(stacks: Seq<Seq<char>>, l: Seq<char>, j: int)
    requires
        j >= 0,
    ensures
        stacks_after_chunks(stacks, l, j).len() == if stacks.len() >= j {
            stacks.len() as int
        } else {
            j
        },
    decreases j,
{
    if j > 0 {
        lemma_chunks_len(stacks, l, j - 1);
    }
}

pub open spec fn stack_line(stacks: Seq<Seq<char>>, l: Seq<char>) -> Seq<Seq<char>> {
    stacks_after_chunks(stacks, l, nchunks(l))
}

/// The stacks drawn by lines `0..h`, still top-down.
pub open spec fn stacks_upto(lines: Seq<Seq<char>>, h: int) -> Seq<Seq<char>>
    decreases h,
{
    if h <= 0 {
        Seq::empty()
    } else {
        stack_line(stacks_upto(lines, h - 1), lines[h - 1])
    }
}

/// The index of the header line (second column `1`) closing the drawing.
pub open spec fn header_at(lines: Seq<Seq<char>>, h: int) -> bool {
    &&& 0 <= h < lines.len()
    &&& lines[h].len() >= 2
    &&& lines[h][1] == '1'
    &&& forall|k: int|
        0 <= k < h ==> (#[trigger] lines[k]).len() >= 2 && lines[k][1] != '1' && lines[k].len() % 4
            != 1
}

/// A well-formed input: a drawing, its header, a blank line, then commands.
pub open spec fn parse_ok(s: Seq<char>) -> bool {
    let lines = text::spec_lines(s);
    exists|h: int|
        {
            &&& #[trigger] header_at(lines, h)
            &&& h + 1 < lines.len()
            &&& lines[h + 1].len() == 0
            &&& forall|k: int|
                h + 2 <= k < lines.len() ==> spec_parse_command(#[trigger] lines[k]) is Some
        }
}

pub open spec fn the_header(s: Seq<char>) -> int {
    choose|h: int| #[trigger] header_at(text::spec_lines(s), h)
}

/// The parsed stacks, bottom-up, and the command list.
pub open spec fn spec_stacks(s: Seq<char>) -> Seq<Seq<char>> {
    stacks_upto(text::spec_lines(s), the_header(s)).map_values(|st: Seq<char>| st.reverse())
}

pub open spec fn spec_commands(s: Seq<char>) -> Seq<Command> {
    let lines = text::spec_lines(s);
    lines.skip(the_header(s) + 2).map_values(|l: Seq<char>| spec_parse_command(l)->0)
}

/// Two headers cannot both be first.
proof fn lemma_header_unique(lines: Seq<Seq<char>>, h1: int, h2: int)
    requires
        header_at(lines, h1),
        header_at(lines, h2),
    ensures
        h1 == h2,
{
    if h1 < h2 {
        assert(lines[h1][1] != '1');
    }
    if h2 < h1 {
        assert(lines[h2][1] != '1');
    }
}

/// Reads the drawing and the command list.
pub fn parse(input: &str) -> (r: Puzzle)
    requires
        parse_ok(input@),
    ensures
        stacks_view(r.stacks@) == spec_stacks(input@),
        r.commands@ == spec_commands(input@),
{
    let ghost lines_spec = text::spec_lines(input@);
    let ghost h = the_header(input@);
    proof {
        let h0 = choose|h0: int|
            {
                &&& #[trigger] header_at(lines_spec, h0)
                &&& h0 + 1 < lines_spec.len()
                &&& lines_spec[h0 + 1].len() == 0
                &&& forall|k: int|
                    h0 + 2 <= k < lines_spec.len() ==> spec_parse_command(
                        #[trigger] lines_spec[k],
                    ) is Some
            };
        assert(header_at(lines_spec, h0));
        assert(header_at(lines_spec, h));
        lemma_header_unique(lines_spec, h, h0);
    }
    let chars = text::chars_of(input);
    let lines = text::split_lines(&chars);
    let mut stacks: Vec<Vec<char>> = Vec::new();
    let mut i: usize = 0;
    proof {
        assert(stacks_view(stacks@) =~= stacks_upto(lines_spec, 0));
    }
    // The drawing, top line first.
    loop
        invariant
            0 <= i <= h,
            lines@.map_values(|l: Vec<char>| l@) == lines_spec,
            lines_spec == text::spec_lines(input@),
            h == the_header(input@),
            header_at(lines_spec, h),
            h < lines_spec.len(),
            stacks_view(stacks@) == stacks_upto(lines_spec, i as int),
        decreases h - i,
    {
        let ghost l = lines_spec[i as int];
        assert(lines@[i as int]@ == l);
        let line = &lines[i];
        if line.len() >= 2 && line[1] == '1' {
            proof {
                if i < h {
                    assert(lines_spec[i as int][1] != '1');
                }
            }
            break ;
        }
        proof {
            if i == h {
                assert(lines_spec[h][1] == '1');
            }
            assert(i < h);
        }
        let ghost st0 = stacks_view(stacks@);
        let nch = if line.len() == 0 {
            0
        } else {
            (line.len() - 1) / 4 + 1
        };
        proof {
            assert(nch == nchunks(l)) by (nonlinear_arith)
                requires
                    l.len() == line@.len(),
                    nch == if l.len() == 0 {
                        0int
                    } else {
                        (l.len() - 1) / 4 + 1
                    },
                    nchunks(l) == (l.len() as int + 3) / 4,
            ;
        }
        let mut s: usize = 0;
        while s < nch
            invariant
                s <= nch,
                nch == nchunks(l),
                i < h,
                l == lines_spec[i as int],
                line@ == l,
                header_at(lines_spec, h),
                h < lines_spec.len(),
                stacks_view(stacks@) == stacks_after_chunks(st0, l, s as int),
            decreases nch - s,
        {
            proof {
                assert(l.len() % 4 != 1);
                assert(4 * (s as int) + 1 < l.len()) by (nonlinear_arith)
                    requires
                        s < nchunks(l),
                        nchunks(l) == (l.len() as int + 3) / 4,
                        l.len() % 4 != 1,
                        0 <= s,
                        l.len() >= 0,
                ;
                lemma_chunks_len(st0, l, s as int);
            }
            let base = 4 * s;
            if stacks.len() <= s {
                proof {
                    assert(stacks@.len() == s);
                }
                stacks.push(Vec::new());
                proof {
                    assert(stacks_view(stacks@) =~= stacks_after_chunks(st0, l, s as int).push(
                        Seq::empty(),
                    ));
                }
            }
            let c = line[base + 1];
            if c != ' ' {
                let ghost before = stacks_view(stacks@);
                let ghost target = stacks@[s as int]@;
                let row = &mut stacks[s];
                row.push(c);
                proof {
                    assert(stacks_view(stacks@) =~= before.update(s as int, target.push(c)));
                }
            }
            proof {
                assert(stacks_view(stacks@) =~= stacks_after_chunks(st0, l, (s + 1) as int));
            }
            s = s + 1;
        }
        proof {
            assert(stacks_view(stacks@) == stack_line(st0, l));
        }
        assert(i < lines.len());
        i = i + 1;
    }
    proof {
        assert(i == h);
    }
    // Skip the blank line; everything after it is a command.
    let mut commands: Vec<Command> = Vec::new();
    proof {
        assert(h + 1 < lines_spec.len());
    }
    assert(i + 2 <= lines.len());
    let mut k = i + 2;
    proof {
        assert(commands@ =~= spec_commands(input@).take(0));
    }
    while k < lines.len()
        invariant
            h + 2 <= k <= lines_spec.len() || (h + 2 == k && k >= lines_spec.len()),
            lines@.map_values(|l: Vec<char>| l@) == lines_spec,
            lines_spec == text::spec_lines(input@),
            h == the_header(input@),
            parse_ok(input@),
            header_at(lines_spec, h),
            commands@ == spec_commands(input@).take(k - h - 2),
        decreases lines_spec.len() - k,
    {
        let ghost l = lines_spec[k as int];
        assert(lines@[k as int]@ == l);
        proof {
            let h0 = choose|h0: int|
                {
                    &&& #[trigger] header_at(lines_spec, h0)
                    &&& h0 + 1 < lines_spec.len()
                    &&& lines_spec[h0 + 1].len() == 0
                    &&& forall|k2: int|
                        h0 + 2 <= k2 < lines_spec.len() ==> spec_parse_command(
                            #[trigger] lines_spec[k2],
                        ) is Some
                };
            lemma_header_unique(lines_spec, h, h0);
            assert(spec_parse_command(l) is Some);
        }
        let line = text::string_from_chars(&lines[k]);
        let cmd = Command::parse(line.as_str());
        commands.push(cmd);
        proof {
            assert(lines_spec.skip(h + 2)[k - h - 2] == lines_spec[k as int]);
            assert(commands@ =~= spec_commands(input@).take(k + 1 - h - 2));
        }
        k = k + 1;
    }
    proof {
        assert(spec_commands(input@).len() == if lines_spec.len() >= h + 2 {
            lines_spec.len() - h - 2
        } else {
            0int
        });
        assert(commands@ =~= spec_commands(input@));
    }
    // The drawing was read top-down; flip each stack the right way up.
    let mut flipped: Vec<Vec<char>> = Vec::new();
    let mut si: usize = 0;
    while si < stacks.len()
        invariant
            si <= stacks@.len(),
            stacks_view(stacks@) == stacks_upto(lines_spec, h),
            lines_spec == text::spec_lines(input@),
            h == the_header(input@),
            flipped@.len() == si,
            forall|j: int|
                0 <= j < si ==> (#[trigger] flipped@[j])@ == stacks_view(stacks@)[j].reverse(),
        decreases stacks@.len() - si,
    {
        let src = &stacks[si];
        let mut rev: Vec<char> = Vec::new();
        let mut p = src.len();
        while p > 0
            invariant
                p <= src@.len(),
                rev@.len() == src@.len() - p,
                forall|q: int| 0 <= q < rev@.len() ==> rev@[q] == src@[src@.len() - 1 - q],
            decreases p,
        {
            p = p - 1;
            rev.push(src[p]);
        }
        proof {
            assert(rev@ =~= src@.reverse());
            assert(stacks@[si as int]@ == stacks_view(stacks@)[si as int]);
        }
        flipped.push(rev);
        si = si + 1;
    }
    proof {
        assert(stacks_view(flipped@) =~= spec_stacks(input@));
    }
    Puzzle { stacks: flipped, commands }
}

/// Moving `q` crates one at a time: each pop lands on the target, so the
/// batch arrives reversed.
pub open spec fn apply_cmd(stacks: Seq<Seq<char>>, cmd: Command, q: int) -> Option<Seq<Seq<char>>>
    decreases q,
{
    if q <= 0 {
        Some(stacks)
    } else if 1 <= cmd.from <= stacks.len() && 1 <= cmd.to <= stacks.len() && stacks[cmd.from
        - 1].len() > 0 {
        let c = stacks[cmd.from - 1].last();
        let st2 = stacks.update(cmd.from - 1, stacks[cmd.from - 1].drop_last());
        let st3 = st2.update(cmd.to - 1, st2[cmd.to - 1].push(c));
        apply_cmd(st3, cmd, q - 1)
    } else {
        None
    }
}

pub open spec fn run_cmds(stacks: Seq<Seq<char>>, cmds: Seq<Command>, i: int) -> Option<
    Seq<Seq<char>>,
>
    decreases i,
{
    if i <= 0 {
        Some(stacks)
    } else {
        match run_cmds(stacks, cmds, i - 1) {
            Some(st) => apply_cmd(st, cmds[i - 1], cmds[i - 1].quantity as int),
            None => None,
        }
    }
}

/// The top crate of each stack after running all commands one crate at a
/// time.
pub open spec fn spec_part1(p: (Seq<Seq<char>>, Seq<Command>)) -> Seq<char> {
    let fin = run_cmds(p.0, p.1, p.1.len() as int)->0;
    Seq::new(fin.len(), |i: int| fin[i].last())
}

pub open spec fn puzzle_ok1(p: (Seq<Seq<char>>, Seq<Command>)) -> bool {
    &&& run_cmds(p.0, p.1, p.1.len() as int) is Some
    &&& forall|i: int|
        0 <= i < run_cmds(p.0, p.1, p.1.len() as int)->0.len() ==> (#[trigger] run_cmds(
            p.0,
            p.1,
            p.1.len() as int,
        )->0[i]).len() > 0
}

pub open spec fn puzzle_view(p: &Puzzle) -> (Seq<Seq<char>>, Seq<Command>) {
    (stacks_view(p.stacks@), p.commands@)
}

/// A fresh copy of the stacks.
fn copy_stacks(v: &Vec<Vec<char>>) -> (r: Vec<Vec<char>>)
    ensures
        stacks_view(r@) == stacks_view(v@),
{
    let mut r: Vec<Vec<char>> = Vec::new();
    let mut i: usize = 0;
    while i < v.len()
        invariant
            i <= v@.len(),
            r@.len() == i,
            forall|j: int| 0 <= j < i ==> (#[trigger] r@[j])@ == v@[j]@,
        decreases v@.len() - i,
    {
        let row = &v[i];
        let copy = text::subrange_vec(row, 0, row.len());
        proof {
            assert(copy@ =~= v@[i as int]@);
        }
        r.push(copy);
        i = i + 1;
    }
    proof {
        assert(stacks_view(r@) =~= stacks_view(v@));
    }
    r
}

/// Runs the commands one crate at a time and reads the stack tops.
pub fn part1(puzzle: &Puzzle) -> (r: String)
    requires
        puzzle_ok1(puzzle_view(puzzle)),
    ensures
        r@ == spec_part1(puzzle_view(puzzle)),
{
    let ghost p = puzzle_view(puzzle);
    let mut work: Vec<Vec<char>> = copy_stacks(&puzzle.stacks);
    proof {
        assert(stacks_view(work@) =~= p.0);
    }
    let mut i: usize = 0;
    while i < puzzle.commands.len()
        invariant
            i <= p.1.len(),
            p == puzzle_view(puzzle),
            puzzle_ok1(p),
            run_cmds(p.0, p.1, i as int) == Some(stacks_view(work@)),
        decreases p.1.len() - i,
    {
        let cmd = puzzle.commands[i];
        proof {
            assert(p.1[i as int] == cmd);
            lemma_run_prefix_some(p.0, p.1, (i + 1) as int, p.1.len() as int);
            assert(run_cmds(p.0, p.1, (i + 1) as int) == apply_cmd(
                stacks_view(work@),
                cmd,
                cmd.quantity as int,
            ));
        }
        let mut n: usize = 0;
        while n < cmd.quantity
            invariant
                n <= cmd.quantity,
                apply_cmd(stacks_view(work@), cmd, cmd.quantity - n) == run_cmds(
                    p.0,
                    p.1,
                    (i + 1) as int,
                ),
                run_cmds(p.0, p.1, (i + 1) as int) is Some,
            decreases cmd.quantity - n,
        {
            let ghost st = stacks_view(work@);
            proof {
                assert(apply_cmd(st, cmd, cmd.quantity - n) is Some);
                assert(1 <= cmd.from <= st.len() && 1 <= cmd.to <= st.len() && st[cmd.from
                    - 1].len() > 0);
                assert(work@[cmd.from as int - 1]@ == st[cmd.from as int - 1]);
            }
            let from_stack = &mut work[cmd.from - 1];
            let c = match from_stack.pop() {
                Some(c) => c,
                None => {
                    proof {
                        assert(false);
                    }
                    vstd::pervasive::unreached()
                },
            };
            proof {
                assert(stacks_view(work@) =~= st.update(
                    cmd.from - 1,
                    st[cmd.from - 1].drop_last(),
                ));
            }
            let ghost st2 = stacks_view(work@);
            let to_stack = &mut work[cmd.to - 1];
            to_stack.push(c);
            proof {
                assert(stacks_view(work@) =~= st2.update(cmd.to - 1, st2[cmd.to - 1].push(c)));
            }
            n = n + 1;
        }
        i = i + 1;
    }
    let ghost fin = run_cmds(p.0, p.1, p.1.len() as int)->0;
    let mut result: Vec<char> = Vec::new();
    let mut s: usize = 0;
    while s < work.len()
        invariant
            s <= work@.len(),
            stacks_view(work@) == fin,
            puzzle_ok1(p),
            fin == run_cmds(p.0, p.1, p.1.len() as int)->0,
            result@.len() == s,
            forall|j: int| 0 <= j < s ==> result@[j] == fin[j].last(),
        decreases work@.len() - s,
    {
        proof {
            assert(work@[s as int]@ == fin[s as int]);
            assert(fin[s as int].len() > 0);
        }
        let stack = &work[s];
        let c = stack[stack.len() - 1];
        result.push(c);
        s = s + 1;
    }
    proof {
        assert(result@ =~= spec_part1(p));
    }
    text::string_from_chars(&result)
}

/// A failed command prefix dooms the whole run.
proof fn lemma_run_prefix_some(
    stacks: Seq<Seq<char>>,
    cmds: Seq<Command>,
    i: int,
    j: int,
)
    requires
        0 <= i <= j <= cmds.len(),
        run_cmds(stacks, cmds, j) is Some,
    ensures
        run_cmds(stacks, cmds, i) is Some,
    decreases j - i,
{
    if i < j {
        lemma_run_prefix_some(stacks, cmds, i + 1, j);
    }
}

/// Moving `q` crates in one lift: the batch keeps its order.
pub open spec fn apply_cmd2(stacks: Seq<Seq<char>>, cmd: Command) -> Option<Seq<Seq<char>>> {
    let q = cmd.quantity as int;
    if 1 <= cmd.from <= stacks.len() && 1 <= cmd.to <= stacks.len() && stacks[cmd.from - 1].len()
        >= q {
        let src = stacks[cmd.from - 1];
        let batch = src.skip(src.len() - q);
        let st2 = stacks.update(cmd.from - 1, src.take(src.len() - q));
        Some(st2.update(cmd.to - 1, st2[cmd.to - 1] + batch))
    } else {
        None
    }
}

pub open spec fn run_cmds2(stacks: Seq<Seq<char>>, cmds: Seq<Command>, i: int) -> Option<
    Seq<Seq<char>>,
>
    decreases i,
{
    if i <= 0 {
        Some(stacks)
    } else {
        match run_cmds2(stacks, cmds, i - 1) {
            Some(st) => apply_cmd2(st, cmds[i - 1]),
            None => None,
        }
    }
}

pub open spec fn spec_part2(p: (Seq<Seq<char>>, Seq<Command>)) -> Seq<char> {
    let fin = run_cmds2(p.0, p.1, p.1.len() as int)->0;
    Seq::new(fin.len(), |i: int| fin[i].last())
}

pub open spec fn puzzle_ok2(p: (Seq<Seq<char>>, Seq<Command>)) -> bool {
    &&& run_cmds2(p.0, p.1, p.1.len() as int) is Some
    &&& forall|i: int|
        0 <= i < run_cmds2(p.0, p.1, p.1.len() as int)->0.len() ==> (#[trigger] run_cmds2(
            p.0,
            p.1,
            p.1.len() as int,
        )->0[i]).len() > 0
}

proof fn lemma_run2_prefix_some(
    stacks: Seq<Seq<char>>,
    cmds: Seq<Command>,
    i: int,
    j: int,
)
    requires
        0 <= i <= j <= cmds.len(),
        run_cmds2(stacks, cmds, j) is Some,
    ensures
        run_cmds2(stacks, cmds, i) is Some,
    decreases j - i,
{
    if i < j {
        lemma_run2_prefix_some(stacks, cmds, i + 1, j);
    }
}

/// Runs the commands moving each batch in one lift and reads the tops.
pub fn part2(puzzle: &Puzzle) -> (r: String)
    requires
        puzzle_ok2(puzzle_view(puzzle)),
    ensures
        r@ == spec_part2(puzzle_view(puzzle)),
{
    let ghost p = puzzle_view(puzzle);
    let mut work: Vec<Vec<char>> = copy_stacks(&puzzle.stacks);
    proof {
        assert(stacks_view(work@) =~= p.0);
    }
    let mut i: usize = 0;
    while i < puzzle.commands.len()
        invariant
            i <= p.1.len(),
            p == puzzle_view(puzzle),
            puzzle_ok2(p),
            run_cmds2(p.0, p.1, i as int) == Some(stacks_view(work@)),
        decreases p.1.len() - i,
    {
        let cmd = puzzle.commands[i];
        proof {
            assert(p.1[i as int] == cmd);
            lemma_run2_prefix_some(p.0, p.1, (i + 1) as int, p.1.len() as int);
            assert(run_cmds2(p.0, p.1, (i + 1) as int) == apply_cmd2(stacks_view(work@), cmd));
            assert(apply_cmd2(stacks_view(work@), cmd) is Some);
        }
        let ghost st = stacks_view(work@);
        proof {
            assert(work@[cmd.from as int - 1]@ == st[cmd.from as int - 1]);
        }
        // Pop the batch into a scratch stack, then pop it back onto the
        // target: two reversals keep the order.
        let mut batch: Vec<char> = Vec::new();
        let mut n: usize = 0;
        let ghost src = st[cmd.from as int - 1];
        proof {
            assert(src.take(src.len() as int) =~= src);
            assert(st.update(cmd.from - 1, src) =~= st);
        }
        while n < cmd.quantity
            invariant
                n <= cmd.quantity,
                1 <= cmd.from <= st.len(),
                1 <= cmd.to <= st.len(),
                src.len() >= cmd.quantity,
                src == st[cmd.from as int - 1],
                st == stacks_view(work@).update(
                    cmd.from - 1,
                    src,
                ),
                stacks_view(work@)[cmd.from as int - 1] == src.take(src.len() - n),
                stacks_view(work@) == st.update(cmd.from - 1, src.take(src.len() - n)),
                batch@.len() == n,
                forall|q: int| 0 <= q < n ==> batch@[q] == src[src.len() - 1 - q],
            decreases cmd.quantity - n,
        {
            let ghost cur = stacks_view(work@);
            let from_stack = &mut work[cmd.from - 1];
            let c = match from_stack.pop() {
                Some(c) => c,
                None => {
                    proof {
                        assert(false);
                    }
                    vstd::pervasive::unreached()
                },
            };
            batch.push(c);
            proof {
                assert(src.take(src.len() - n).drop_last() =~= src.take(src.len() - (n + 1)));
                assert(stacks_view(work@) =~= st.update(
                    cmd.from - 1,
                    src.take(src.len() - (n + 1)),
                ));
            }
            n = n + 1;
        }
        let ghost st2 = stacks_view(work@);
        let mut m: usize = batch.len();
        proof {
            let piece = src.skip(src.len() - cmd.quantity);
            assert(piece.take(0) =~= Seq::<char>::empty());
            assert(st2[cmd.to as int - 1] + piece.take(0) =~= st2[cmd.to as int - 1]);
            assert(st2.update(cmd.to - 1, st2[cmd.to as int - 1] + piece.take(0)) =~= st2);
        }
        while m > 0
            invariant
                m <= batch@.len(),
                batch@.len() == cmd.quantity,
                1 <= cmd.to <= st2.len(),
                forall|q: int| 0 <= q < batch@.len() ==> batch@[q] == src[src.len() - 1 - q],
                src.len() >= cmd.quantity,
                stacks_view(work@) == st2.update(
                    cmd.to - 1,
                    st2[cmd.to as int - 1] + src.skip(src.len() - cmd.quantity).take(
                        cmd.quantity - m,
                    ),
                ),
            decreases m,
        {
            proof {
                assert(st2[cmd.to as int - 1] + src.skip(src.len() - cmd.quantity).take(
                    cmd.quantity - m,
                ) == stacks_view(work@)[cmd.to as int - 1]);
            }
            m = m - 1;
            let c = batch[m];
            let ghost cur = stacks_view(work@);
            let to_stack = &mut work[cmd.to - 1];
            to_stack.push(c);
            proof {
                let piece = src.skip(src.len() - cmd.quantity);
                assert(batch@[m as int] == src[src.len() - 1 - m]);
                assert(piece.len() == cmd.quantity);
                assert(piece[cmd.quantity - m - 1] == src[src.len() - 1 - m]);
                assert(piece.take(cmd.quantity - m) =~= piece.take(cmd.quantity - (m + 1)).push(
                    src[src.len() - 1 - m],
                ));
                assert(cur[cmd.to as int - 1].push(c) =~= st2[cmd.to as int - 1] + piece.take(
                    cmd.quantity - m,
                ));
                assert(stacks_view(work@) =~= cur.update(
                    cmd.to - 1,
                    cur[cmd.to as int - 1].push(c),
                ));
                assert(stacks_view(work@) =~= st2.update(
                    cmd.to - 1,
                    st2[cmd.to as int - 1] + piece.take(cmd.quantity - m),
                ));
            }
        }
        proof {
            let piece = src.skip(src.len() - cmd.quantity);
            assert(piece.take(cmd.quantity as int) =~= piece);
            assert(stacks_view(work@) =~= apply_cmd2(st, cmd)->0);
        }
        i = i + 1;
    }
    let ghost fin = run_cmds2(p.0, p.1, p.1.len() as int)->0;
    let mut result: Vec<char> = Vec::new();
    let mut s: usize = 0;
    while s < work.len()
        invariant
            s <= work@.len(),
            stacks_view(work@) == fin,
            puzzle_ok2(p),
            fin == run_cmds2(p.0, p.1, p.1.len() as int)->0,
            result@.len() == s,
            forall|j: int| 0 <= j < s ==> result@[j] == fin[j].last(),
        decreases work@.len() - s,
    {
        proof {
            assert(work@[s as int]@ == fin[s as int]);
            assert(fin[s as int].len() > 0);
        }
        let stack = &work[s];
        let c = stack[stack.len() - 1];
        result.push(c);
        s = s + 1;
    }
    proof {
        assert(result@ =~= spec_part2(p));
    }
    text::string_from_chars(&result)
}

} // verus!
