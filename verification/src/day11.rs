//! Monkey business: monkeys inspect worry values, divide them by three,
//! test divisibility and throw them on. Part one counts inspections over
//! twenty rounds and multiplies the two busiest counts.

use vstd::prelude::*;

verus! {

use crate::text;
use crate::day01;

#[derive(Debug, Clone, Copy)]
pub enum MonkeyOp {
    Plus(usize),
    Times(usize),
    Square,
}

#[derive(Debug, Clone)]
pub struct Monkey {
    pub num_inspections: usize,
    pub items: Vec<usize>,
    pub op: MonkeyOp,
    pub modulus: usize,
    pub if_true: usize,
    pub if_false: usize,
}

/// The mathematical shadow of a monkey.
pub struct MonkeySpec {
    pub inspections: int,
    pub items: Seq<int>,
    pub op: MonkeyOp,
    pub modulus: int,
    pub if_true: int,
    pub if_false: int,
}

pub open spec fn mview1(m: Monkey) -> MonkeySpec {
    MonkeySpec {
        inspections: m.num_inspections as int,
        items: m.items@.map_values(|w: usize| w as int),
        op: m.op,
        modulus: m.modulus as int,
        if_true: m.if_true as int,
        if_false: m.if_false as int,
    }
}

pub open spec fn mview(ms: Seq<Monkey>) -> Seq<MonkeySpec> {
    ms.map_values(|m: Monkey| mview1(m))
}

pub open spec fn worry_of(op: MonkeyOp, w: int) -> int {
    match op {
        MonkeyOp::Plus(x) => w + x,
        MonkeyOp::Times(x) => w * x,
        MonkeyOp::Square => w * w,
    }
}

/// Monkey `m` throws all its items, last in hand first; the walk stops
/// (`None`) on arithmetic past the machine, a zero modulus, or a throw to
/// itself or out of range.
pub open spec fn monkey_turn(ms: Seq<MonkeySpec>, m: int) -> Option<Seq<MonkeySpec>>
    decreases ms[m].items.len(),
{
    if !(0 <= m < ms.len()) {
        None
    } else if ms[m].items.len() == 0 {
        Some(ms)
    } else {
        let w = ms[m].items.last();
        let raw = worry_of(ms[m].op, w);
        if !(0 <= raw <= usize::MAX) || ms[m].modulus <= 0 {
            None
        } else {
            let worry = raw / 3;
            let target = if worry % ms[m].modulus == 0 {
                ms[m].if_true
            } else {
                ms[m].if_false
            };
            if target == m || !(0 <= target < ms.len()) || ms[m].inspections + 1 > usize::MAX {
                None
            } else {
                let src = ms[m];
                let ms2 = ms.update(
                    m,
                    MonkeySpec {
                        inspections: src.inspections + 1,
                        items: src.items.drop_last(),
                        op: src.op,
                        modulus: src.modulus,
                        if_true: src.if_true,
                        if_false: src.if_false,
                    },
                );
                let dst = ms2[target];
                let ms3 = ms2.update(
                    target,
                    MonkeySpec {
                        inspections: dst.inspections,
                        items: dst.items.push(worry),
                        op: dst.op,
                        modulus: dst.modulus,
                        if_true: dst.if_true,
                        if_false: dst.if_false,
                    },
                );
                monkey_turn(ms3, m)
            }
        }
    }
}

/// The first `m` monkeys of one round have taken their turns.
pub open spec fn round_upto(ms: Seq<MonkeySpec>, m: int) -> Option<Seq<MonkeySpec>>
    decreases m,
{
    if m <= 0 {
        Some(ms)
    } else {
        match round_upto(ms, m - 1) {
            Some(s) => monkey_turn(s, m - 1),
            None => None,
        }
    }
}

/// The state after `r` full rounds.
pub open spec fn rounds_upto(ms: Seq<MonkeySpec>, r: int) -> Option<Seq<MonkeySpec>>
    decreases r,
{
    if r <= 0 {
        Some(ms)
    } else {
        match rounds_upto(ms, r - 1) {
            Some(s) => round_upto(s, s.len() as int),
            None => None,
        }
    }
}

/// The two largest values seen, in descending order.
pub open spec fn top2_insert(t: (int, int), v: int) -> (int, int) {
    if v > t.0 {
        (v, t.0)
    } else if v > t.1 {
        (t.0, v)
    } else {
        t
    }
}

pub open spec fn top2_of(s: Seq<int>) -> (int, int)
    decreases s.len(),
{
    if s.len() == 0 {
        (-1, -1)
    } else {
        top2_insert(top2_of(s.drop_last()), s.last())
    }
}

pub open spec fn inspection_counts(ms: Seq<MonkeySpec>) -> Seq<int> {
    ms.map_values(|m: MonkeySpec| m.inspections)
}

/// The product of the two largest inspection counts; with fewer than two
/// monkeys, the one count, or one for none at all.
pub open spec fn monkey_business(ms: Seq<MonkeySpec>) -> int {
    let counts = inspection_counts(ms);
    if counts.len() == 0 {
        1
    } else if counts.len() == 1 {
        counts[0]
    } else {
        top2_of(counts).0 * top2_of(counts).1
    }
}

pub open spec fn sim_ok(ms: Seq<MonkeySpec>) -> bool {
    &&& rounds_upto(ms, 20) is Some
    &&& 0 <= monkey_business(rounds_upto(ms, 20)->0) <= usize::MAX
}

/// The comma-separated fields of a text, separators kept out.
pub open spec fn spec_fields(s: Seq<char>) -> Seq<Seq<char>>
    decreases s.len(),
        via spec_fields_decreases
{
    let i = text::spec_find(s, |c: char| c == ',');
    if i == s.len() {
        seq![s]
    } else {
        seq![s.take(i)] + spec_fields(s.skip(i + 1))
    }
}

#[via_fn]
proof fn spec_fields_decreases(s: Seq<char>) {
    text::lemma_find(s, |c: char| c == ',');
}

/// Splits `v[from..]` at its commas.
fn split_fields(v: &Vec<char>, from: usize) -> (r: Vec<Vec<char>>)
    requires
        from <= v@.len(),
    ensures
        r@.map_values(|f: Vec<char>| f@) == spec_fields(v@.skip(from as int)),
{
    let ghost whole = v@.skip(from as int);
    let mut r: Vec<Vec<char>> = Vec::new();
    let mut pos = from;
    proof {
        assert(r@.map_values(|f: Vec<char>| f@) + spec_fields(whole) =~= spec_fields(whole));
    }
    loop
        invariant
            from <= pos <= v@.len(),
            whole == v@.skip(from as int),
            spec_fields(whole) == r@.map_values(|f: Vec<char>| f@) + spec_fields(
                v@.skip(pos as int),
            ),
        decreases v@.len() - pos,
    {
        let ghost rest = v@.skip(pos as int);
        let j = text::find_char(v, pos, ',');
        proof {
            let f = |c: char| c == ',';
            assert forall|k: int| 0 <= k < j - pos implies !f(rest[k]) by {
                assert(rest[k] == v@[pos + k]);
            }
            if j < v@.len() {
                assert(rest[j - pos] == v@[j as int]);
                assert(f(rest[j - pos]) && j - pos < rest.len());
            }
            text::lemma_find_is(rest, f, j - pos);
            assert(rest.take(j - pos) =~= v@.subrange(pos as int, j as int));
        }
        let seg = text::subrange_vec(v, pos, j);
        let ghost old_r = r@;
        r.push(seg);
        proof {
            assert(r@.map_values(|f2: Vec<char>| f2@) =~= old_r.map_values(|f2: Vec<char>| f2@)
                + seq![seg@]);
        }
        if j == v.len() {
            proof {
                assert(spec_fields(rest) =~= seq![rest]);
                assert(rest =~= seg@);
                assert(r@.map_values(|f2: Vec<char>| f2@) =~= spec_fields(whole));
            }
            return r;
        }
        proof {
            assert(rest.skip(j - pos + 1) =~= v@.skip((j + 1) as int));
            assert(spec_fields(rest) =~= seq![rest.take(j - pos)] + spec_fields(
                v@.skip((j + 1) as int),
            ));
        }
        pos = j + 1;
    }
}

/// The numeric value in a line's last token.
pub open spec fn last_token_usize(l: Seq<char>) -> Option<usize> {
    let ts = text::spec_tokens(l);
    if ts.len() >= 1 && text::spec_parse_usize(ts.last()) is Some {
        Some(text::spec_parse_usize(ts.last())->0)
    } else {
        None
    }
}

/// One monkey's six lines: its number, starting items, operation, test
/// divisor and the two throw targets.
pub open spec fn spec_parse_monkey(g: Seq<Seq<char>>) -> Option<MonkeySpec> {
    if g.len() != 6 {
        None
    } else {
        let ts0 = text::spec_tokens(g[0]);
        let ci = text::spec_find(g[1], |c: char| c == ':');
        let fields = spec_fields(g[1].skip(ci + 1));
        let ts2 = text::spec_tokens(g[2]);
        if ts0.len() >= 1 && ts0[0] == seq!['M', 'o', 'n', 'k', 'e', 'y'] && ci < g[1].len() && (
        forall|i: int|
            0 <= i < fields.len() ==> text::spec_tokens(#[trigger] fields[i]).len() == 1
                && text::spec_parse_usize(text::spec_tokens(fields[i])[0]) is Some) && ts2.len()
            >= 6 && ts2[3] == seq!['o', 'l', 'd'] && last_token_usize(g[3]) is Some
            && last_token_usize(g[4]) is Some && last_token_usize(g[5]) is Some {
            let op = if ts2[4] == seq!['+'] && text::spec_parse_usize(ts2[5]) is Some {
                Some(MonkeyOp::Plus(text::spec_parse_usize(ts2[5])->0))
            } else if ts2[4] == seq!['*'] && ts2[5] == seq!['o', 'l', 'd'] {
                Some(MonkeyOp::Square)
            } else if ts2[4] == seq!['*'] && text::spec_parse_usize(ts2[5]) is Some {
                Some(MonkeyOp::Times(text::spec_parse_usize(ts2[5])->0))
            } else {
                None
            };
            match op {
                None => None,
                Some(op) => Some(
                    MonkeySpec {
                        inspections: 0,
                        items: fields.map_values(
                            |f: Seq<char>| text::spec_parse_usize(text::spec_tokens(f)[0])->0
                                as int,
                        ),
                        op,
                        modulus: last_token_usize(g[3])->0 as int,
                        if_true: last_token_usize(g[4])->0 as int,
                        if_false: last_token_usize(g[5])->0 as int,
                    },
                ),
            }
        } else {
            None
        }
    }
}

pub open spec fn input_groups(s: Seq<char>) -> Seq<Seq<Seq<char>>> {
    day01::spec_groups(text::spec_lines(s))
}

pub open spec fn parse_ok(s: Seq<char>) -> bool {
    forall|i: int| 0 <= i < input_groups(s).len() ==> spec_parse_monkey(
        #[trigger] input_groups(s)[i],
    ) is Some
}

pub open spec fn parsed_monkeys(s: Seq<char>) -> Seq<MonkeySpec> {
    input_groups(s).map_values(|g: Seq<Seq<char>>| spec_parse_monkey(g)->0)
}

/// The value in the line's last token.
fn parse_last_token(line: &Vec<char>) -> (r: usize)
    requires
        last_token_usize(line@) is Some,
    ensures
        r == last_token_usize(line@)->0,
{
    let toks = text::split_tokens(line);
    proof {
        assert(toks@.map_values(|t: Vec<char>| t@) == text::spec_tokens(line@));
        assert(toks@[toks@.len() - 1]@ == text::spec_tokens(line@).last());
    }
    match text::parse_usize_chars(toks[toks.len() - 1].as_slice()) {
        Some(n) => n,
        None => {
            proof {
                assert(false);
            }
            vstd::pervasive::unreached()
        },
    }
}

/// Reads the blank-line-separated monkey descriptions.
pub fn parse(input: &str) -> (r: Vec<Monkey>)
    requires
        parse_ok(input@),
    ensures
        mview(r@) == parsed_monkeys(input@),
{
    let chars = text::chars_of(input);
    let lines = text::split_lines(&chars);
    let groups = day01::split_groups(&lines);
    let ghost gs = input_groups(input@);
    let mut monkeys: Vec<Monkey> = Vec::new();
    let mut i: usize = 0;
    proof {
        assert(mview(monkeys@) =~= parsed_monkeys(input@).take(0));
    }
    while i < groups.len()
        invariant
            i <= groups@.len(),
            groups@.map_values(|g: Vec<Vec<char>>| g@.map_values(|l: Vec<char>| l@)) == gs,
            gs == input_groups(input@),
            parse_ok(input@),
            mview(monkeys@) == parsed_monkeys(input@).take(i as int),
        decreases groups@.len() - i,
    {
        let ghost g = gs[i as int];
        assert(groups@[i as int]@.map_values(|l: Vec<char>| l@) == g);
        let group = &groups[i];
        proof {
            assert(spec_parse_monkey(g) is Some);
            assert(g.len() == 6) by {
                if g.len() != 6 {
                    assert(spec_parse_monkey(g) is None);
                }
            }
            assert(group@[1]@ == g[1]);
            assert(group@[2]@ == g[2]);
            assert(group@[3]@ == g[3]);
            assert(group@[4]@ == g[4]);
            assert(group@[5]@ == g[5]);
        }
        // Starting items: everything after the colon, comma-separated.
        let l1 = &group[1];
        let ci = text::find_char(l1, 0, ':');
        proof {
            text::lemma_find_is(g[1], |c: char| c == ':', ci as int);
            assert(ci < l1@.len()) by {
                if ci as int == g[1].len() {
                    assert(spec_parse_monkey(g) is None);
                }
            }
        }
        assert(ci < l1.len());
        let fields = split_fields(l1, ci + 1);
        let ghost fs = spec_fields(g[1].skip(ci + 1));
        let mut items: Vec<usize> = Vec::new();
        let mut k: usize = 0;
        proof {
            assert(items@.map_values(|w: usize| w as int) =~= fs.map_values(
                |f: Seq<char>| text::spec_parse_usize(text::spec_tokens(f)[0])->0 as int,
            ).take(0));
        }
        while k < fields.len()
            invariant
                k <= fs.len(),
                fields@.map_values(|f: Vec<char>| f@) == fs,
                forall|j: int|
                    0 <= j < fs.len() ==> text::spec_tokens(#[trigger] fs[j]).len() == 1
                        && text::spec_parse_usize(text::spec_tokens(fs[j])[0]) is Some,
                items@.map_values(|w: usize| w as int) == fs.map_values(
                    |f: Seq<char>| text::spec_parse_usize(text::spec_tokens(f)[0])->0 as int,
                ).take(k as int),
            decreases fs.len() - k,
        {
            assert(fields@[k as int]@ == fs[k as int]);
            let toks = text::split_tokens(&fields[k]);
            proof {
                assert(toks@.map_values(|t: Vec<char>| t@) == text::spec_tokens(fs[k as int]));
                assert(toks@[0]@ == text::spec_tokens(fs[k as int])[0]);
            }
            match text::parse_usize_chars(toks[0].as_slice()) {
                Some(w) => {
                    items.push(w);
                    proof {
                        assert(items@.map_values(|w2: usize| w2 as int) =~= fs.map_values(
                            |f: Seq<char>| text::spec_parse_usize(text::spec_tokens(f)[0])->0
                                as int,
                        ).take((k + 1) as int));
                    }
                },
                None => {
                    proof {
                        assert(false);
                    }
                },
            }
            k = k + 1;
        }
        proof {
            assert(fs.map_values(
                |f: Seq<char>| text::spec_parse_usize(text::spec_tokens(f)[0])->0 as int,
            ).take(fs.len() as int) =~= fs.map_values(
                |f: Seq<char>| text::spec_parse_usize(text::spec_tokens(f)[0])->0 as int,
            ));
        }
        // Operation: `new = old OP V`.
        let toks2 = text::split_tokens(&group[2]);
        proof {
            assert(toks2@.map_values(|t: Vec<char>| t@) == text::spec_tokens(g[2]));
            assert(toks2@[4]@ == text::spec_tokens(g[2])[4]);
            assert(toks2@[5]@ == text::spec_tokens(g[2])[5]);
        }
        let t4 = &toks2[4];
        let t5 = &toks2[5];
        let is_plus = t4.len() == 1 && t4[0] == '+';
        let is_times = t4.len() == 1 && t4[0] == '*';
        let is_old = t5.len() == 3 && t5[0] == 'o' && t5[1] == 'l' && t5[2] == 'd';
        proof {
            let ts2 = text::spec_tokens(g[2]);
            if is_plus {
                assert(t4@ =~= seq!['+']);
            } else {
                assert(t4@ != seq!['+']) by {
                    if t4@ == seq!['+'] {
                        assert(t4@.len() == 1 && t4@[0] == '+');
                    }
                }
            }
            if is_times {
                assert(t4@ =~= seq!['*']);
            } else {
                assert(t4@ != seq!['*']) by {
                    if t4@ == seq!['*'] {
                        assert(t4@.len() == 1 && t4@[0] == '*');
                    }
                }
            }
            if is_old {
                assert(t5@ =~= seq!['o', 'l', 'd']);
            } else {
                assert(t5@ != seq!['o', 'l', 'd']) by {
                    if t5@ == seq!['o', 'l', 'd'] {
                        assert(t5@.len() == 3 && t5@[0] == 'o' && t5@[1] == 'l' && t5@[2] == 'd');
                    }
                }
            }
        }
        let op = if is_plus {
            match text::parse_usize_chars(t5.as_slice()) {
                Some(x) => MonkeyOp::Plus(x),
                None => {
                    proof {
                        assert(false);
                    }
                    vstd::pervasive::unreached()
                },
            }
        } else if is_times && is_old {
            MonkeyOp::Square
        } else if is_times {
            match text::parse_usize_chars(t5.as_slice()) {
                Some(x) => MonkeyOp::Times(x),
                None => {
                    proof {
                        assert(false);
                    }
                    vstd::pervasive::unreached()
                },
            }
        } else {
            proof {
                assert(false);
            }
            vstd::pervasive::unreached()
        };
        let modulus = parse_last_token(&group[3]);
        let if_true = parse_last_token(&group[4]);
        let if_false = parse_last_token(&group[5]);
        let monkey = Monkey { num_inspections: 0, items, op, modulus, if_true, if_false };
        proof {
            assert(mview1(monkey).items =~= spec_parse_monkey(g)->0.items);
            assert(mview1(monkey) == spec_parse_monkey(g)->0);
        }
        monkeys.push(monkey);
        proof {
            assert(mview(monkeys@) =~= parsed_monkeys(input@).take((i + 1) as int));
        }
        i = i + 1;
    }
    proof {
        assert(mview(monkeys@) =~= parsed_monkeys(input@));
    }
    monkeys
}

/// Runs twenty rounds and multiplies the two busiest monkeys' counts.
pub fn part1(monkeys: &[Monkey]) -> (r: usize)
    requires
        sim_ok(mview(monkeys@)),
    ensures
        r == monkey_business(rounds_upto(mview(monkeys@), 20)->0),
{
    let ghost ms0 = mview(monkeys@);
    let mut work: Vec<Monkey> = Vec::new();
    let mut ci: usize = 0;
    while ci < monkeys.len()
        invariant
            ci <= monkeys@.len(),
            work@.len() == ci,
            forall|j: int| 0 <= j < ci ==> mview1(#[trigger] work@[j]) == mview1(monkeys@[j]),
        decreases monkeys@.len() - ci,
    {
        let m = copy_one(&monkeys[ci]);
        work.push(m);
        ci = ci + 1;
    }
    proof {
        assert(mview(work@) =~= ms0);
    }
    let mut round: usize = 0;
    while round < 20
        invariant
            round <= 20,
            ms0 == mview(monkeys@),
            sim_ok(ms0),
            rounds_upto(ms0, round as int) == Some(mview(work@)),
            work@.len() == ms0.len(),
        decreases 20 - round,
    {
        proof {
            lemma_rounds_prefix(ms0, (round + 1) as int, 20);
            assert(rounds_upto(ms0, (round + 1) as int) == round_upto(
                mview(work@),
                mview(work@).len() as int,
            ));
        }
        let ghost rs = mview(work@);
        let mut m: usize = 0;
        while m < work.len()
            invariant
                m <= work@.len(),
                work@.len() == rs.len(),
                round_upto(rs, m as int) == Some(mview(work@)),
                round_upto(rs, rs.len() as int) is Some,
                rounds_upto(ms0, (round + 1) as int) == round_upto(rs, rs.len() as int),
                ms0 == mview(monkeys@),
                sim_ok(ms0),
                rounds_upto(ms0, round as int) == Some(rs),
            decreases work@.len() - m,
        {
            proof {
                lemma_round_prefix(rs, (m + 1) as int, rs.len() as int);
                assert(round_upto(rs, (m + 1) as int) == monkey_turn(mview(work@), m as int));
            }
            let ghost turn_goal = round_upto(rs, (m + 1) as int);
            loop
                invariant
                    m < work@.len(),
                    work@.len() == rs.len(),
                    turn_goal == monkey_turn(mview(work@), m as int),
                    turn_goal is Some,
                decreases mview(work@)[m as int].items.len(),
            {
                let ghost cur = mview(work@);
                let items_len = work[m].items.len();
                if items_len == 0 {
                    proof {
                        assert(cur[m as int].items.len() == 0);
                        assert(turn_goal == Some(cur));
                    }
                    break ;
                }
                proof {
                    assert(cur[m as int].items.len() > 0);
                    assert(work@[m as int].items@.len() > 0);
                }
                let mrow = &mut work[m];
                let w = match mrow.items.pop() {
                    Some(w) => w,
                    None => {
                        proof {
                            assert(false);
                        }
                        vstd::pervasive::unreached()
                    },
                };
                let inspections = mrow.num_inspections;
                proof {
                    assert(cur[m as int].items.last() == w as int);
                    // The spec walk is alive, so this step's arithmetic fits.
                    assert(0 <= worry_of(cur[m as int].op, w as int) <= usize::MAX && cur[
                        m as int].modulus > 0 && cur[m as int].inspections + 1 <= usize::MAX);
                }
                let raw = match mrow.op {
                    MonkeyOp::Plus(x) => w + x,
                    MonkeyOp::Times(x) => {
                        proof {
                            assert(worry_of(cur[m as int].op, w as int) == (w as int) * (
                            x as int));
                        }
                        w * x
                    },
                    MonkeyOp::Square => {
                        proof {
                            assert(worry_of(cur[m as int].op, w as int) == (w as int) * (
                            w as int));
                        }
                        w * w
                    },
                };
                let worry = raw / 3;
                let modulus = mrow.modulus;
                let if_true = mrow.if_true;
                let if_false = mrow.if_false;
                mrow.num_inspections = inspections + 1;
                let target = if worry % modulus == 0 {
                    if_true
                } else {
                    if_false
                };
                proof {
                    let raw_spec = worry_of(cur[m as int].op, w as int);
                    assert(raw == raw_spec);
                    assert(target == if (raw_spec / 3) % cur[m as int].modulus == 0 {
                        cur[m as int].if_true
                    } else {
                        cur[m as int].if_false
                    });
                    assert(target != m && target < work@.len()) by {
                        if target == m || target >= cur.len() {
                            assert(monkey_turn(cur, m as int) is None);
                        }
                    }
                }
                let ghost mid = mview(work@);
                let trow = &mut work[target];
                trow.items.push(worry);
                proof {
                    let src = cur[m as int];
                    let ms2 = cur.update(
                        m as int,
                        MonkeySpec {
                            inspections: src.inspections + 1,
                            items: src.items.drop_last(),
                            op: src.op,
                            modulus: src.modulus,
                            if_true: src.if_true,
                            if_false: src.if_false,
                        },
                    );
                    assert(mid[m as int].items =~= src.items.drop_last());
                    assert(mid =~= ms2);
                    let dst = ms2[target as int];
                    let ms3 = ms2.update(
                        target as int,
                        MonkeySpec {
                            inspections: dst.inspections,
                            items: dst.items.push((raw / 3) as int),
                            op: dst.op,
                            modulus: dst.modulus,
                            if_true: dst.if_true,
                            if_false: dst.if_false,
                        },
                    );
                    assert(mview(work@)[target as int].items =~= dst.items.push(worry as int));
                    assert(mview(work@) =~= ms3);
                    assert(monkey_turn(cur, m as int) == monkey_turn(ms3, m as int));
                }
            }
            m = m + 1;
        }
        proof {
            assert(round_upto(rs, rs.len() as int) == Some(mview(work@)));
        }
        round = round + 1;
    }
    let ghost fin = rounds_upto(ms0, 20)->0;
    proof {
        assert(mview(work@) == fin);
    }
    // Find the two largest inspection counts.
    let mut a: i128 = -1;
    let mut b: i128 = -1;
    let mut i: usize = 0;
    proof {
        assert(inspection_counts(fin).take(0) =~= Seq::<int>::empty());
    }
    while i < work.len()
        invariant
            i <= work@.len(),
            mview(work@) == fin,
            fin == rounds_upto(ms0, 20)->0,
            sim_ok(ms0),
            ms0 == mview(monkeys@),
            (a as int, b as int) == top2_of(inspection_counts(fin).take(i as int)),
            -1 <= b <= a <= usize::MAX,
        decreases work@.len() - i,
    {
        proof {
            assert(inspection_counts(fin).take((i + 1) as int).drop_last() =~= inspection_counts(
                fin,
            ).take(i as int));
            assert(inspection_counts(fin).take((i + 1) as int).last() == fin[i as int].inspections);
            assert(fin[i as int].inspections == work@[i as int].num_inspections as int);
        }
        let v = work[i].num_inspections as i128;
        if v > a {
            b = a;
            a = v;
        } else if v > b {
            b = v;
        }
        i = i + 1;
    }
    proof {
        assert(inspection_counts(fin).take(work@.len() as int) =~= inspection_counts(fin));
    }
    if work.len() == 0 {
        proof {
            assert(monkey_business(fin) == 1);
        }
        1
    } else if work.len() == 1 {
        proof {
            assert(inspection_counts(fin).len() == 1);
            let counts = inspection_counts(fin);
            assert(counts.take(1).drop_last() =~= counts.take(0));
            assert(counts.take(0) =~= Seq::<int>::empty());
            assert(counts.take(0) == Seq::<int>::empty());
            assert(top2_of(Seq::<int>::empty()) == (-1int, -1int));
            assert(counts.take(1).last() == counts[0]);
            assert(counts[0] == fin[0].inspections);
            assert(fin[0].inspections == work@[0].num_inspections as int);
            assert(a as int == counts[0]);
        }
        work[0].num_inspections
    } else {
        proof {
            assert(monkey_business(fin) == top2_of(inspection_counts(fin)).0 * top2_of(
                inspection_counts(fin),
            ).1);
            assert(a as int * b as int == monkey_business(fin));
            assert(0 <= monkey_business(fin) <= usize::MAX);
        }
        ((a * b) as u64) as usize
    }
}

proof fn lemma_rounds_prefix(ms: Seq<MonkeySpec>, i: int, j: int)
    requires
        0 <= i <= j,
        rounds_upto(ms, j) is Some,
    ensures
        rounds_upto(ms, i) is Some,
    decreases j - i,
{
    if i < j {
        lemma_rounds_prefix(ms, i + 1, j);
    }
}

proof fn lemma_round_prefix(ms: Seq<MonkeySpec>, i: int, j: int)
    requires
        0 <= i <= j,
        round_upto(ms, j) is Some,
    ensures
        round_upto(ms, i) is Some,
    decreases j - i,
{
    if i < j {
        lemma_round_prefix(ms, i + 1, j);
    }
}

/// A fresh copy of one monkey.
fn copy_one(m: &Monkey) -> (r: Monkey)
    ensures
        mview1(r) == mview1(*m),
{
    let mut items: Vec<usize> = Vec::new();
    let mut k: usize = 0;
    while k < m.items.len()
        invariant
            k <= m.items@.len(),
            items@ == m.items@.take(k as int),
        decreases m.items@.len() - k,
    {
        items.push(m.items[k]);
        proof {
            assert(items@ =~= m.items@.take((k + 1) as int));
        }
        k = k + 1;
    }
    proof {
        assert(m.items@.take(m.items@.len() as int) =~= m.items@);
    }
    let copy = Monkey {
        num_inspections: m.num_inspections,
        items,
        op: m.op,
        modulus: m.modulus,
        if_true: m.if_true,
        if_false: m.if_false,
    };
    proof {
        assert(mview1(copy).items =~= mview1(*m).items);
    }
    copy
}

} // verus!
