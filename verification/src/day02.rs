//! Rock-paper-scissors scoring: each line holds the opponent's hand and a
//! second symbol, read either as our hand or as the desired outcome.

use vstd::prelude::*;

verus! {

use crate::arith;
use crate::text;

#[derive(PartialEq, Eq, Structural, Clone, Copy)]
pub enum Hand {
    Rock,
    Paper,
    Scissors,
}

#[derive(Clone, Copy)]
pub struct GameRound {
    pub them: Hand,
    pub us: Hand,
}

/// Why an input could not be parsed.
#[derive(Debug, PartialEq, Eq, Structural, Clone, Copy)]
pub enum ParseError {
    InvalidLine,
}

pub open spec fn spec_them(t: Seq<char>) -> Option<Hand> {
    if t.len() == 1 && t[0] == 'A' {
        Some(Hand::Rock)
    } else if t.len() == 1 && t[0] == 'B' {
        Some(Hand::Paper)
    } else if t.len() == 1 && t[0] == 'C' {
        Some(Hand::Scissors)
    } else {
        None
    }
}

pub open spec fn spec_us(t: Seq<char>) -> Option<Hand> {
    if t.len() == 1 && t[0] == 'X' {
        Some(Hand::Rock)
    } else if t.len() == 1 && t[0] == 'Y' {
        Some(Hand::Paper)
    } else if t.len() == 1 && t[0] == 'Z' {
        Some(Hand::Scissors)
    } else {
        None
    }
}

/// A line parses when its first two tokens name the two hands.
pub open spec fn spec_parse_line(l: Seq<char>) -> Option<GameRound> {
    let ts = text::spec_tokens(l);
    if ts.len() >= 2 && spec_them(ts[0]) is Some && spec_us(ts[1]) is Some {
        Some(GameRound { them: spec_them(ts[0])->0, us: spec_us(ts[1])->0 })
    } else {
        None
    }
}

/// Reads one round: the first token is `A`, `B` or `C`, the second `X`, `Y`
/// or `Z`; anything after them is ignored.
pub fn parse_line(line: &str) -> (r: Result<GameRound, ParseError>)
    ensures
        spec_parse_line(line@) is Some ==> r is Ok && r->Ok_0 == spec_parse_line(line@)->0,
        spec_parse_line(line@) is None ==> r is Err,
{
    let chars = text::chars_of(line);
    let toks = text::split_tokens(&chars);
    if toks.len() < 2 {
        return Err(ParseError::InvalidLine);
    }
    assert(toks@[0]@ == text::spec_tokens(line@)[0]);
    assert(toks@[1]@ == text::spec_tokens(line@)[1]);
    let t0 = &toks[0];
    let them = if t0.len() == 1 && t0[0] == 'A' {
        Hand::Rock
    } else if t0.len() == 1 && t0[0] == 'B' {
        Hand::Paper
    } else if t0.len() == 1 && t0[0] == 'C' {
        Hand::Scissors
    } else {
        return Err(ParseError::InvalidLine);
    };
    let t1 = &toks[1];
    let us = if t1.len() == 1 && t1[0] == 'X' {
        Hand::Rock
    } else if t1.len() == 1 && t1[0] == 'Y' {
        Hand::Paper
    } else if t1.len() == 1 && t1[0] == 'Z' {
        Hand::Scissors
    } else {
        return Err(ParseError::InvalidLine);
    };
    Ok(GameRound { them, us })
}

/// The score of one round: the chosen hand scores one to three, the outcome
/// zero, three or six.
pub open spec fn spec_score(gr: GameRound) -> int {
    match gr.us {
        Hand::Rock => match gr.them {
            Hand::Rock => 1int + 3,
            Hand::Paper => 1int,
            Hand::Scissors => 1int + 6,
        },
        Hand::Paper => match gr.them {
            Hand::Rock => 2int + 6,
            Hand::Paper => 2int + 3,
            Hand::Scissors => 2int,
        },
        Hand::Scissors => match gr.them {
            Hand::Rock => 3int,
            Hand::Paper => 3int + 6,
            Hand::Scissors => 3int + 3,
        },
    }
}

pub fn score(gr: &GameRound) -> (r: i32)
    ensures
        r == spec_score(*gr),
{
    match gr.us {
        Hand::Rock => match gr.them {
            Hand::Rock => 1 + 3,
            Hand::Paper => 1,
            Hand::Scissors => 1 + 6,
        },
        Hand::Paper => match gr.them {
            Hand::Rock => 2 + 6,
            Hand::Paper => 2 + 3,
            Hand::Scissors => 2,
        },
        Hand::Scissors => match gr.them {
            Hand::Rock => 3,
            Hand::Paper => 3 + 6,
            Hand::Scissors => 3 + 3,
        },
    }
}

/// Re-reads our symbol as the desired outcome: `X` lose, `Y` draw, `Z` win.
pub open spec fn spec_reinterpret(gr: GameRound) -> GameRound {
    GameRound {
        them: gr.them,
        us: match gr.us {
            Hand::Rock => match gr.them {
                Hand::Rock => Hand::Scissors,
                Hand::Paper => Hand::Rock,
                Hand::Scissors => Hand::Paper,
            },
            Hand::Paper => gr.them,
            Hand::Scissors => match gr.them {
                Hand::Rock => Hand::Paper,
                Hand::Paper => Hand::Scissors,
                Hand::Scissors => Hand::Rock,
            },
        },
    }
}

pub fn reinterpret_part2(gr: &GameRound) -> (r: GameRound)
    ensures
        r == spec_reinterpret(*gr),
{
    GameRound {
        them: gr.them,
        us: match gr.us {
            Hand::Rock => match gr.them {
                // We want to lose.
                Hand::Rock => Hand::Scissors,
                Hand::Paper => Hand::Rock,
                Hand::Scissors => Hand::Paper,
            },
            Hand::Paper => gr.them,
            Hand::Scissors => match gr.them {
                // We want to win.
                Hand::Rock => Hand::Paper,
                Hand::Paper => Hand::Scissors,
                Hand::Scissors => Hand::Rock,
            },
        },
    }
}

/// Every line of the input parses as a round.
pub open spec fn parse_ok(s: Seq<char>) -> bool {
    forall|i: int|
        0 <= i < text::spec_lines(s).len() ==> spec_parse_line(
            #[trigger] text::spec_lines(s)[i],
        ) is Some
}

pub open spec fn parsed_rounds(s: Seq<char>) -> Seq<GameRound> {
    text::spec_lines(s).map_values(|l: Seq<char>| spec_parse_line(l)->0)
}

pub fn parse(input: &str) -> (r: Result<Vec<GameRound>, ParseError>)
    ensures
        parse_ok(input@) ==> r is Ok && r->Ok_0@ == parsed_rounds(input@),
        !parse_ok(input@) ==> r is Err,
{
    let chars = text::chars_of(input);
    let lines = text::split_lines(&chars);
    let ghost spec = text::spec_lines(input@);
    let mut vals: Vec<GameRound> = Vec::new();
    let mut i: usize = 0;
    proof {
        assert(vals@ =~= parsed_rounds(input@).take(0));
    }
    while i < lines.len()
        invariant
            i <= lines@.len(),
            lines@.map_values(|l: Vec<char>| l@) == spec,
            forall|j: int| 0 <= j < i ==> spec_parse_line(#[trigger] spec[j]) is Some,
            vals@ == parsed_rounds(input@).take(i as int),
        decreases lines@.len() - i,
    {
        assert(lines@[i as int]@ == spec[i as int]);
        let line = text::string_from_chars(&lines[i]);
        match parse_line(line.as_str()) {
            Ok(gr) => {
                vals.push(gr);
                proof {
                    assert(vals@ =~= parsed_rounds(input@).take((i + 1) as int));
                }
            },
            Err(e) => {
                return Err(e);
            },
        }
        i = i + 1;
    }
    proof {
        assert(vals@ =~= parsed_rounds(input@));
    }
    Ok(vals)
}

pub open spec fn scores(vals: Seq<GameRound>) -> Seq<int> {
    vals.map_values(|gr: GameRound| spec_score(gr))
}

/// The total score of all rounds as written.
pub fn part1(vals: &[GameRound]) -> (r: i32)
    requires
        vals@.len() * 9 <= i32::MAX,
    ensures
        r == arith::sum(scores(vals@)),
{
    let ghost s = scores(vals@);
    let mut total: i32 = 0;
    let mut i: usize = 0;
    proof {
        assert(s.take(0) =~= Seq::<int>::empty());
    }
    while i < vals.len()
        invariant
            i <= vals@.len(),
            s == scores(vals@),
            vals@.len() * 9 <= i32::MAX,
            total == arith::sum(s.take(i as int)),
            0 <= total <= i * 9,
        decreases vals@.len() - i,
    {
        proof {
            arith::lemma_sum_take_step(s, i as int);
            assert(1 <= s[i as int] <= 9);
            assert((i + 1) * 9 == i * 9 + 9) by (nonlinear_arith);
            assert(i * 9 + 9 <= vals@.len() * 9) by (nonlinear_arith)
                requires
                    i + 1 <= vals@.len(),
            ;
        }
        total = total + score(&vals[i]);
        i = i + 1;
    }
    proof {
        assert(s.take(vals@.len() as int) =~= s);
    }
    total
}

pub open spec fn scores2(vals: Seq<GameRound>) -> Seq<int> {
    vals.map_values(|gr: GameRound| spec_score(spec_reinterpret(gr)))
}

/// The total score with the second symbol read as the desired outcome.
pub fn part2(vals: &[GameRound]) -> (r: i32)
    requires
        vals@.len() * 9 <= i32::MAX,
    ensures
        r == arith::sum(scores2(vals@)),
{
    let ghost s = scores2(vals@);
    let mut total: i32 = 0;
    let mut i: usize = 0;
    proof {
        assert(s.take(0) =~= Seq::<int>::empty());
    }
    while i < vals.len()
        invariant
            i <= vals@.len(),
            s == scores2(vals@),
            vals@.len() * 9 <= i32::MAX,
            total == arith::sum(s.take(i as int)),
            0 <= total <= i * 9,
        decreases vals@.len() - i,
    {
        proof {
            arith::lemma_sum_take_step(s, i as int);
            assert(1 <= s[i as int] <= 9);
            assert((i + 1) * 9 == i * 9 + 9) by (nonlinear_arith);
            assert(i * 9 + 9 <= vals@.len() * 9) by (nonlinear_arith)
                requires
                    i + 1 <= vals@.len(),
            ;
        }
        let reread = reinterpret_part2(&vals[i]);
        total = total + score(&reread);
        i = i + 1;
    }
    proof {
        assert(s.take(vals@.len() as int) =~= s);
    }
    total
}

} // verus!
