//! Distress-signal packets: nested lists of numbers, one pair per input
//! block. A pair is in the right order when the left packet compares at or
//! below the right one under the list-wise ordering rule.

use vstd::prelude::*;

verus! {

use crate::arith;
use crate::text;

pub enum Packet {
    Int(u64),
    List(Vec<Packet>),
}

/// The mathematical shadow of a packet.
pub enum PacketSpec {
    Int(int),
    List(Seq<PacketSpec>),
}

pub open spec fn pview(p: Packet) -> PacketSpec
    decreases p,
{
    match p {
        Packet::Int(x) => PacketSpec::Int(x as int),
        Packet::List(v) => PacketSpec::List(pview_seq(v@)),
    }
}

pub open spec fn pview_seq(s: Seq<Packet>) -> Seq<PacketSpec>
    decreases s,
{
    if s.len() == 0 {
        Seq::empty()
    } else {
        seq![pview(s[0])] + pview_seq(s.drop_first())
    }
}

/// Three-way packet comparison: numbers by value; lists element by element,
/// the shorter list first on a tie; a number against a list as though it
/// were a singleton list.
pub open spec fn cmp_pk(a: PacketSpec, b: PacketSpec) -> int
    decreases a, b, 0int,
{
    match (a, b) {
        (PacketSpec::Int(x), PacketSpec::Int(y)) => {
            if x < y {
                -1
            } else if x > y {
                1
            } else {
                0
            }
        },
        (PacketSpec::List(u), PacketSpec::List(v)) => cmp_lists(u, v, 0),
        (PacketSpec::Int(_), PacketSpec::List(v)) => {
            if v.len() == 0 {
                1
            } else {
                let c = cmp_pk(a, v[0]);
                if c != 0 {
                    c
                } else if v.len() == 1 {
                    0
                } else {
                    -1
                }
            }
        },
        (PacketSpec::List(u), PacketSpec::Int(_)) => {
            if u.len() == 0 {
                -1
            } else {
                let c = cmp_pk(u[0], b);
                if c != 0 {
                    c
                } else if u.len() == 1 {
                    0
                } else {
                    1
                }
            }
        },
    }
}

pub open spec fn cmp_lists(u: Seq<PacketSpec>, v: Seq<PacketSpec>, i: int) -> int
    decreases u, v, u.len() - i + 1,
{
    if i < 0 {
        0
    } else if i >= u.len() && i >= v.len() {
        0
    } else if i >= u.len() {
        -1
    } else if i >= v.len() {
        1
    } else {
        let c = cmp_pk(u[i], v[i]);
        if c != 0 {
            c
        } else {
            cmp_lists(u, v, i + 1)
        }
    }
}

/// How many digits run from `pos`.
pub open spec fn digit_run(s: Seq<char>, pos: int) -> int {
    text::spec_find(s.skip(pos), |c: char| !text::is_digit(c))
}

/// One packet starting at `pos`: a number, or `[`, packets joined by
/// commas, `]`. The step budget bounds the recursion; the standard budget
/// of `parse_budget` outlasts any input of its length.
pub open spec fn spec_pk(s: Seq<char>, pos: int, fuel: nat) -> Option<(PacketSpec, int)>
    decreases fuel,
{
    if fuel == 0 || !(0 <= pos < s.len()) {
        None
    } else if text::is_digit(s[pos]) {
        let n = digit_run(s, pos);
        if text::spec_parse_u64(s.subrange(pos, pos + n)) is Some {
            Some((PacketSpec::Int(text::spec_parse_u64(s.subrange(pos, pos + n))->0 as int), pos + n))
        } else {
            None
        }
    } else if s[pos] == '[' {
        if pos + 1 < s.len() && s[pos + 1] == ']' {
            Some((PacketSpec::List(Seq::empty()), pos + 2))
        } else {
            match spec_items(s, pos + 1, (fuel - 1) as nat) {
                Some((elems, end)) => Some((PacketSpec::List(elems), end)),
                None => None,
            }
        }
    } else {
        None
    }
}

/// One or more packets joined by commas, then the closing `]`; the position
/// returned sits just past the bracket.
pub open spec fn spec_items(s: Seq<char>, pos: int, fuel: nat) -> Option<(Seq<PacketSpec>, int)>
    decreases fuel,
{
    if fuel == 0 {
        None
    } else {
        match spec_pk(s, pos, (fuel - 1) as nat) {
            None => None,
            Some((p, nx)) => {
                if nx < s.len() && s[nx] == ',' {
                    match spec_items(s, nx + 1, (fuel - 1) as nat) {
                        Some((ps, end)) => Some((seq![p] + ps, end)),
                        None => None,
                    }
                } else if nx < s.len() && s[nx] == ']' {
                    Some((seq![p], nx + 1))
                } else {
                    None
                }
            },
        }
    }
}

pub open spec fn parse_budget(s: Seq<char>) -> nat {
    (2 * s.len() + 4) as nat
}

/// A whole line as one packet.
pub open spec fn spec_parse_packet(s: Seq<char>) -> Option<PacketSpec> {
    match spec_pk(s, 0, parse_budget(s)) {
        Some((p, end)) => if end == s.len() {
            Some(p)
        } else {
            None
        },
        None => None,
    }
}

/// Reads an unsigned number at `pos`.
fn number_at(v: &Vec<char>, pos: usize) -> (r: Option<(u64, usize)>)
    requires
        pos < v@.len(),
        text::is_digit(v@[pos as int]),
    ensures
        ({
            let n = digit_run(v@, pos as int);
            match r {
                Some((x, nx)) => text::spec_parse_u64(v@.subrange(pos as int, pos as int + n))
                    == Some(x) && nx as int == pos + n && nx <= v@.len(),
                None => text::spec_parse_u64(v@.subrange(pos as int, pos as int + n)) is None,
            }
        }),
{
    let ghost f = |c: char| !text::is_digit(c);
    let mut j = pos;
    while j < v.len() && v[j] as u32 >= 48 && v[j] as u32 <= 57
        invariant
            pos <= j <= v@.len(),
            forall|k: int| pos <= k < j ==> text::is_digit(#[trigger] v@[k]),
        decreases v@.len() - j,
    {
        j = j + 1;
    }
    proof {
        let rest = v@.skip(pos as int);
        assert forall|k: int| 0 <= k < j - pos implies !f(rest[k]) by {
            assert(rest[k] == v@[pos + k]);
        }
        if j < v@.len() {
            assert(rest[j - pos] == v@[j as int]);
        }
        text::lemma_find_is(rest, f, j - pos);
        assert(rest.take(j - pos) =~= v@.subrange(pos as int, j as int));
    }
    let digits = text::subrange_vec(v, pos, j);
    match text::parse_u64_chars(digits.as_slice()) {
        Some(x) => Some((x, j)),
        None => None,
    }
}

/// Reads one packet at `pos` within the given step budget.
fn pk_at(v: &Vec<char>, pos: usize, fuel: usize) -> (r: Option<(Packet, usize)>)
    requires
        pos <= v@.len(),
    ensures
        ({
            let sp = spec_pk(v@, pos as int, fuel as nat);
            match r {
                Some((p, nx)) => sp == Some((pview(p), nx as int)) && nx <= v@.len(),
                None => sp is None,
            }
        }),
    decreases fuel,
{
    if fuel == 0 || pos >= v.len() {
        return None;
    }
    let c = v[pos];
    let u = c as u32;
    if 48 <= u && u <= 57 {
        match number_at(v, pos) {
            Some((x, nx)) => Some((Packet::Int(x), nx)),
            None => None,
        }
    } else if c == '[' {
        if pos + 1 < v.len() && v[pos + 1] == ']' {
            let p = Packet::List(Vec::new());
            proof {
                assert(pview_seq(Seq::<Packet>::empty()) =~= Seq::<PacketSpec>::empty());
            }
            Some((p, pos + 2))
        } else {
            match items_at(v, pos + 1, fuel - 1) {
                Some((elems, end)) => {
                    let ghost es = spec_items(v@, pos + 1 as int, (fuel - 1) as nat)->0;
                    proof {
                        assert(pview_seq(elems@) == es.0);
                    }
                    Some((Packet::List(elems), end))
                },
                None => None,
            }
        }
    } else {
        None
    }
}

/// Reads comma-joined packets up to and past the closing `]`.
fn items_at(v: &Vec<char>, pos: usize, fuel: usize) -> (r: Option<(Vec<Packet>, usize)>)
    requires
        pos <= v@.len(),
    ensures
        ({
            let sp = spec_items(v@, pos as int, fuel as nat);
            match r {
                Some((ps, end)) => sp == Some((pview_seq(ps@), end as int)) && end <= v@.len(),
                None => sp is None,
            }
        }),
    decreases fuel,
{
    if fuel == 0 {
        return None;
    }
    match pk_at(v, pos, fuel - 1) {
        None => None,
        Some((p, nx)) => {
            if nx < v.len() && v[nx] == ',' {
                match items_at(v, nx + 1, fuel - 1) {
                    Some((ps, end)) => {
                        let mut all: Vec<Packet> = Vec::new();
                        all.push(p);
                        let mut rest = ps;
                        let ghost rest0 = rest@;
                        let ghost sp_tail = spec_items(v@, nx + 1 as int, (fuel - 1) as nat)->0;
                        all.append(&mut rest);
                        proof {
                            lemma_pview_seq_index(all@);
                            lemma_pview_seq_index(rest0);
                            assert(all@ =~= seq![p] + rest0);
                            assert(pview_seq(all@) =~= seq![pview(p)] + pview_seq(rest0));
                            assert(pview_seq(rest0) == sp_tail.0);
                        }
                        Some((all, end))
                    },
                    None => None,
                }
            } else if nx < v.len() && v[nx] == ']' {
                let mut one: Vec<Packet> = Vec::new();
                one.push(p);
                proof {
                    lemma_pview_seq_index(one@);
                    assert(pview_seq(one@) =~= seq![pview(p)]);
                }
                Some((one, nx + 1))
            } else {
                None
            }
        },
    }
}

/// The shadow of a packet list, element by element.
pub proof fn lemma_pview_seq_index(s: Seq<Packet>)
    ensures
        pview_seq(s).len() == s.len(),
        forall|i: int| 0 <= i < s.len() ==> #[trigger] pview_seq(s)[i] == pview(s[i]),
    decreases s.len(),
{
    if s.len() > 0 {
        lemma_pview_seq_index(s.drop_first());
        assert forall|i: int| 0 <= i < s.len() implies #[trigger] pview_seq(s)[i] == pview(
            s[i],
        ) by {
            if i > 0 {
                assert(pview_seq(s.drop_first())[i - 1] == pview(s.drop_first()[i - 1]));
                assert(s.drop_first()[i - 1] == s[i]);
            }
        }
    }
}

/// Three-way packet comparison.
fn cmp_packets(a: &Packet, b: &Packet) -> (r: i32)
    ensures
        r as int == cmp_pk(pview(*a), pview(*b)),
        -1 <= r <= 1,
    decreases *a, *b, 0int,
{
    match (a, b) {
        (Packet::Int(x), Packet::Int(y)) => {
            if x < y {
                -1
            } else if x > y {
                1
            } else {
                0
            }
        },
        (Packet::List(u), Packet::List(v)) => {
            proof {
                lemma_pview_seq_index(u@);
                lemma_pview_seq_index(v@);
            }
            let ghost su = pview_seq(u@);
            let ghost sv = pview_seq(v@);
            let mut i: usize = 0;
            loop
                invariant
                    i <= u@.len() || i <= v@.len(),
                    su == pview_seq(u@),
                    sv == pview_seq(v@),
                    su.len() == u@.len(),
                    sv.len() == v@.len(),
                    forall|m: int| 0 <= m < u@.len() ==> #[trigger] su[m] == pview(u@[m]),
                    forall|m: int| 0 <= m < v@.len() ==> #[trigger] sv[m] == pview(v@[m]),
                    cmp_lists(su, sv, i as int) == cmp_lists(su, sv, 0),
                    0 <= i,
                decreases su.len() - i + 1,
            {
                if i >= u.len() && i >= v.len() {
                    return 0;
                }
                if i >= u.len() {
                    return -1;
                }
                if i >= v.len() {
                    return 1;
                }
                let c = cmp_packets(&u[i], &v[i]);
                if c != 0 {
                    return c;
                }
                i = i + 1;
            }
        },
        (Packet::Int(_), Packet::List(v)) => {
            proof {
                lemma_pview_seq_index(v@);
            }
            if v.len() == 0 {
                1
            } else {
                let c = cmp_packets(a, &v[0]);
                if c != 0 {
                    c
                } else if v.len() == 1 {
                    0
                } else {
                    -1
                }
            }
        },
        (Packet::List(u), Packet::Int(_)) => {
            proof {
                lemma_pview_seq_index(u@);
            }
            if u.len() == 0 {
                -1
            } else {
                let c = cmp_packets(&u[0], b);
                if c != 0 {
                    c
                } else if u.len() == 1 {
                    0
                } else {
                    1
                }
            }
        },
    }
}

/// Whether the left packet compares at or below the right one.
pub fn in_correct_order(left: &str, right: &str) -> (r: bool)
    requires
        spec_parse_packet(left@) is Some,
        spec_parse_packet(right@) is Some,
        line_fits(left@),
        line_fits(right@),
    ensures
        r == (cmp_pk(spec_parse_packet(left@)->0, spec_parse_packet(right@)->0) <= 0),
{
    let lv = text::chars_of(left);
    let rv = text::chars_of(right);
    let lfuel = 2 * lv.len() + 4;
    let rfuel = 2 * rv.len() + 4;
    let lp = match pk_at(&lv, 0, lfuel) {
        Some((p, _)) => p,
        None => {
            proof {
                assert(false);
            }
            vstd::pervasive::unreached()
        },
    };
    let rp = match pk_at(&rv, 0, rfuel) {
        Some((p, _)) => p,
        None => {
            proof {
                assert(false);
            }
            vstd::pervasive::unreached()
        },
    };
    cmp_packets(&lp, &rp) <= 0
}

/// The machine bound under which the parse budget can be counted out.
pub open spec fn line_fits(s: Seq<char>) -> bool {
    2 * s.len() + 4 <= usize::MAX
}

/// The first two lines of each three-line block.
pub open spec fn spec_pairs(s: Seq<char>) -> Seq<(Seq<char>, Seq<char>)> {
    let lines = text::spec_lines(s);
    Seq::new(((lines.len() + 2) / 3) as nat, |k: int| (lines[3 * k], lines[3 * k + 1]))
}

/// Reads pairs of packet lines, with one line (usually blank) skipped
/// between blocks.
pub fn parse(input: &str) -> (r: Vec<(String, String)>)
    requires
        text::spec_lines(input@).len() % 3 != 1,
    ensures
        r@.len() == spec_pairs(input@).len(),
        forall|k: int|
            0 <= k < r@.len() ==> (#[trigger] r@[k]).0@ == spec_pairs(input@)[k].0 && r@[k].1@
                == spec_pairs(input@)[k].1,
{
    let chars = text::chars_of(input);
    let lines = text::split_lines(&chars);
    let ghost spec = text::spec_lines(input@);
    let mut parsed: Vec<(String, String)> = Vec::new();
    let mut i: usize = 0;
    while i < lines.len() && lines.len() - i > 1
        invariant
            i % 3 == 0,
            i <= spec.len() + 1,
            i <= spec.len() || spec.len() % 3 == 2,
            spec.len() % 3 != 1,
            lines@.map_values(|l: Vec<char>| l@) == spec,
            spec == text::spec_lines(input@),
            parsed@.len() == i / 3,
            parsed@.len() <= spec_pairs(input@).len(),
            forall|k: int|
                0 <= k < i / 3 ==> (#[trigger] parsed@[k]).0@ == spec_pairs(input@)[k].0
                    && parsed@[k].1@ == spec_pairs(input@)[k].1,
        decreases lines@.len() + 2 - i,
    {
        assert(lines@[i as int]@ == spec[i as int]);
        assert(lines@[(i + 1) as int]@ == spec[(i + 1) as int]);
        let left = text::string_from_chars(&lines[i]);
        let right = text::string_from_chars(&lines[i + 1]);
        parsed.push((left, right));
        proof {
            assert(spec_pairs(input@)[(i / 3) as int] == (spec[3 * (i / 3)], spec[3 * (i / 3)
                + 1]));
        }
        i = i + 3;
    }
    proof {
        assert(parsed@.len() == spec_pairs(input@).len()) by {
            assert(i / 3 == (spec.len() + 2) / 3);
        }
    }
    parsed
}

pub open spec fn pair_ok(p: (Seq<char>, Seq<char>)) -> bool {
    spec_parse_packet(p.0) is Some && spec_parse_packet(p.1) is Some
}

pub open spec fn pair_score(p: (Seq<char>, Seq<char>), k: int) -> int {
    if cmp_pk(spec_parse_packet(p.0)->0, spec_parse_packet(p.1)->0) <= 0 {
        k + 1
    } else {
        0
    }
}

pub open spec fn pair_views(parsed: Seq<(String, String)>) -> Seq<(Seq<char>, Seq<char>)> {
    parsed.map_values(|p: (String, String)| (p.0@, p.1@))
}

pub open spec fn scores(parsed: Seq<(Seq<char>, Seq<char>)>) -> Seq<int> {
    Seq::new(parsed.len(), |k: int| pair_score(parsed[k], k))
}

/// The sum of the one-based indices of the pairs in the right order.
pub fn part1(parsed: &[(String, String)]) -> (r: usize)
    requires
        forall|k: int|
            0 <= k < parsed@.len() ==> pair_ok(#[trigger] pair_views(parsed@)[k]) && line_fits(
                pair_views(parsed@)[k].0,
            ) && line_fits(pair_views(parsed@)[k].1),
        parsed@.len() * (parsed@.len() + 1) / 2 <= usize::MAX,
    ensures
        r == arith::sum(scores(pair_views(parsed@))),
{
    let ghost ps = pair_views(parsed@);
    let ghost s = scores(ps);
    let mut result: usize = 0;
    let mut i: usize = 0;
    proof {
        assert(s.take(0) =~= Seq::<int>::empty());
    }
    while i < parsed.len()
        invariant
            i <= ps.len(),
            ps == pair_views(parsed@),
            s == scores(ps),
            forall|k: int| 0 <= k < ps.len() ==> pair_ok(#[trigger] ps[k]),
            ps.len() * (ps.len() + 1) / 2 <= usize::MAX,
            result == arith::sum(s.take(i as int)),
            0 <= result <= i * (i + 1) / 2,
        decreases ps.len() - i,
    {
        proof {
            arith::lemma_sum_take_step(s, i as int);
            assert(ps[i as int] == (parsed@[i as int].0@, parsed@[i as int].1@));
            assert(0 <= s[i as int] <= i + 1);
            assert(i * (i + 1) / 2 + (i + 1) <= (i + 1) * (i + 2) / 2) by (nonlinear_arith)
                requires
                    0 <= i,
            ;
            assert((i + 1) * (i + 2) / 2 <= ps.len() * (ps.len() + 1) / 2) by (nonlinear_arith)
                requires
                    0 <= i + 1 <= ps.len(),
            ;
        }
        let (left, right) = &parsed[i];
        if in_correct_order(left.as_str(), right.as_str()) {
            result = result + (i + 1);
        }
        i = i + 1;
    }
    proof {
        assert(s.take(ps.len() as int) =~= s);
    }
    result
}

} // verus!
