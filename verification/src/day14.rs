//! Rock polylines: a point is `x,y`, and a polyline is one or more points
//! joined by ` -> ` arrows. A parse returns the value together with the
//! unread remainder of its input.

use vstd::prelude::*;

verus! {

use crate::text;

#[derive(Debug)]
pub struct Point {
    pub x: i32,
    pub y: i32,
}

#[derive(Debug)]
pub struct Polyline {
    pub points: Vec<Point>,
}

/// Why an input could not be parsed.
#[derive(Debug, PartialEq, Eq, Structural, Clone, Copy)]
pub enum ParseError {
    InvalidPoint,
}

/// How many digits run from `pos`.
pub open spec fn digit_run(s: Seq<char>, pos: int) -> int {
    text::spec_find(s.skip(pos), |c: char| !text::is_digit(c))
}

/// `x,y` starting at `pos`: two digit runs around a comma; the parsed point
/// and the position just past it.
pub open spec fn spec_parse_point(s: Seq<char>, pos: int) -> Option<(Point, int)> {
    let n1 = digit_run(s, pos);
    if n1 == 0 || text::spec_parse_i32(s.subrange(pos, pos + n1)) is None {
        None
    } else if pos + n1 >= s.len() || s[pos + n1] != ',' {
        None
    } else {
        let p2 = pos + n1 + 1;
        let n2 = digit_run(s, p2);
        if n2 == 0 || text::spec_parse_i32(s.subrange(p2, p2 + n2)) is None {
            None
        } else {
            Some(
                (
                    Point {
                        x: text::spec_parse_i32(s.subrange(pos, pos + n1))->0,
                        y: text::spec_parse_i32(s.subrange(p2, p2 + n2))->0,
                    },
                    p2 + n2,
                ),
            )
        }
    }
}

/// The point a successful point-parse yields.
pub open spec fn pt_val(r: Option<(Point, int)>) -> Point {
    let t = r->0;
    t.0
}

/// The position just past a successful point-parse.
pub open spec fn pt_end(r: Option<(Point, int)>) -> int {
    let t = r->0;
    t.1
}

/// The points a successful polyline-parse yields.
pub open spec fn pl_pts(r: Option<(Seq<Point>, int)>) -> Seq<Point> {
    let t = r->0;
    t.0
}

/// The position just past a successful polyline-parse.
pub open spec fn pl_end(r: Option<(Seq<Point>, int)>) -> int {
    let t = r->0;
    t.1
}

/// A parsed point spans at least three characters and stays in bounds.
pub proof fn lemma_point_advance(s: Seq<char>, pos: int)
    requires
        0 <= pos <= s.len(),
        spec_parse_point(s, pos) is Some,
    ensures
        pos + 3 <= pt_end(spec_parse_point(s, pos)) <= s.len(),
{
    let f = |c: char| !text::is_digit(c);
    text::lemma_find(s.skip(pos), f);
    let n1 = digit_run(s, pos);
    let p2 = pos + n1 + 1;
    text::lemma_find(s.skip(p2), f);
}

/// One or more points joined by ` -> `; greedy, stopping at the first place
/// no further ` -> point` follows.
pub open spec fn spec_parse_polyline(s: Seq<char>, pos: int) -> Option<(Seq<Point>, int)>
    decreases s.len() - pos,
        via spec_parse_polyline_decreases
{
    if !(0 <= pos <= s.len()) {
        None
    } else {
        match spec_parse_point(s, pos) {
            None => None,
            Some((p, nx)) => {
                if nx + 4 <= s.len() && s.subrange(nx, nx + 4) == seq![' ', '-', '>', ' ']
                    && spec_parse_point(s, nx + 4) is Some {
                    let rest = spec_parse_polyline(s, nx + 4)->0;
                    Some((seq![p] + rest.0, rest.1))
                } else {
                    Some((seq![p], nx))
                }
            },
        }
    }
}

#[via_fn]
proof fn spec_parse_polyline_decreases(s: Seq<char>, pos: int) {
    if 0 <= pos <= s.len() && spec_parse_point(s, pos) is Some {
        lemma_point_advance(s, pos);
    }
}

/// A polyline parse succeeds exactly where a point parse does.
pub proof fn lemma_polyline_some(s: Seq<char>, pos: int)
    requires
        0 <= pos <= s.len(),
        spec_parse_point(s, pos) is Some,
    ensures
        spec_parse_polyline(s, pos) is Some,
        pos + 3 <= pl_end(spec_parse_polyline(s, pos)) <= s.len(),
    decreases s.len() - pos,
{
    lemma_point_advance(s, pos);
    let (p, nx) = spec_parse_point(s, pos)->0;
    if nx + 4 <= s.len() && s.subrange(nx, nx + 4) == seq![' ', '-', '>', ' ']
        && spec_parse_point(s, nx + 4) is Some {
        lemma_polyline_some(s, nx + 4);
    }
}

/// Reads a digit run starting at `pos` as an `i32`.
fn parse_digit_run(v: &Vec<char>, pos: usize) -> (r: Option<(i32, usize)>)
    requires
        pos <= v@.len(),
    ensures
        ({
            let n = digit_run(v@, pos as int);
            if n == 0 || text::spec_parse_i32(v@.subrange(pos as int, pos as int + n)) is None {
                r is None
            } else {
                r == Some(
                    (
                        text::spec_parse_i32(v@.subrange(pos as int, pos as int + n))->0,
                        (pos + n) as usize,
                    ),
                )
            }
        }),
{
    let ghost f = |c: char| !text::is_digit(c);
    let mut j = pos;
    while j < v.len() && v[j] as u32 >= 48 && v[j] as u32 <= 57
        invariant
            pos <= j <= v@.len(),
            forall|k: int| pos <= k < j ==> text::is_digit(#[trigger] v@[k]),
        decreases v@.len() - j,
    {
        j = j + 1;
    }
    proof {
        let rest = v@.skip(pos as int);
        assert forall|k: int| 0 <= k < j - pos implies !f(rest[k]) by {
            assert(rest[k] == v@[pos + k]);
        }
        if j < v@.len() {
            assert(rest[j - pos] == v@[j as int]);
        }
        text::lemma_find_is(rest, f, j - pos);
        assert(rest.take(j - pos) =~= v@.subrange(pos as int, j as int));
    }
    if j == pos {
        return None;
    }
    let digits = text::subrange_vec(v, pos, j);
    match text::parse_i32_chars(digits.as_slice()) {
        Some(x) => Some((x, j)),
        None => None,
    }
}

/// Reads `x,y` from the front of the input, returning the rest and the
/// point.
pub fn parse_point(i: &str) -> (r: Result<(String, Point), ParseError>)
    ensures
        spec_parse_point(i@, 0) is Some ==> r is Ok && (r->Ok_0).0@ == i@.skip(
            pt_end(spec_parse_point(i@, 0)),
        ) && (r->Ok_0).1.x == pt_val(spec_parse_point(i@, 0)).x && (r->Ok_0).1.y == pt_val(
            spec_parse_point(i@, 0),
        ).y,
        spec_parse_point(i@, 0) is None ==> r is Err,
{
    let v = text::chars_of(i);
    match point_at(&v, 0) {
        Some((p, nx)) => {
            let rest = text::subrange_vec(&v, nx, v.len());
            proof {
                assert(rest@ =~= i@.skip(pt_end(spec_parse_point(i@, 0))));
            }
            Ok((text::string_from_chars(&rest), p))
        },
        None => Err(ParseError::InvalidPoint),
    }
}

/// Reads `x,y` at `pos`.
fn point_at(v: &Vec<char>, pos: usize) -> (r: Option<(Point, usize)>)
    requires
        pos <= v@.len(),
    ensures
        ({
            let sp = spec_parse_point(v@, pos as int);
            match r {
                Some((p, nx)) => sp == Some((Point { x: p.x, y: p.y }, nx as int)) && nx
                    <= v@.len(),
                None => sp is None,
            }
        }),
{
    match parse_digit_run(v, pos) {
        Some((x, j)) => {
            proof {
                text::lemma_find(v@.skip(pos as int), |c: char| !text::is_digit(c));
            }
            if j < v.len() && v[j] == ',' {
                match parse_digit_run(v, j + 1) {
                    Some((y, end)) => {
                        proof {
                            text::lemma_find(
                                v@.skip((j + 1) as int),
                                |c: char| !text::is_digit(c),
                            );
                        }
                        Some((Point { x, y }, end))
                    },
                    None => None,
                }
            } else {
                None
            }
        },
        None => None,
    }
}

/// Reads a ` -> `-separated list of points from the front of the input,
/// returning the rest and the polyline.
pub fn parse_polyline(i: &str) -> (r: Result<(String, Polyline), ParseError>)
    ensures
        spec_parse_polyline(i@, 0) is Some ==> r is Ok && (r->Ok_0).0@ == i@.skip(
            pl_end(spec_parse_polyline(i@, 0)),
        ) && (r->Ok_0).1.points@.len() == pl_pts(spec_parse_polyline(i@, 0)).len() && (forall|
            k: int,
        |
            0 <= k < (r->Ok_0).1.points@.len() ==> (#[trigger] (r->Ok_0).1.points@[k]).x
                == pl_pts(spec_parse_polyline(i@, 0))[k].x && (r->Ok_0).1.points@[k].y == pl_pts(
                spec_parse_polyline(i@, 0),
            )[k].y),
        spec_parse_polyline(i@, 0) is None ==> r is Err,
{
    let ghost s = i@;
    let v = text::chars_of(i);
    let mut points: Vec<Point> = Vec::new();
    let first = match point_at(&v, 0) {
        Some(pn) => pn,
        None => {
            return Err(ParseError::InvalidPoint);
        },
    };
    proof {
        lemma_polyline_some(s, 0);
    }
    let ghost goal = spec_parse_polyline(s, 0)->0;
    let (p0, first_end) = first;
    let mut pos = first_end;
    points.push(p0);
    let ghost mut anchor: int = 0;
    loop
        invariant
            pos <= v@.len(),
            v@ == s,
            spec_parse_polyline(s, 0) is Some,
            goal == spec_parse_polyline(s, 0)->0,
            points@.len() >= 1,
            0 <= anchor <= s.len(),
            spec_parse_point(s, anchor) is Some,
            pt_end(spec_parse_point(s, anchor)) == pos as int,
            spec_parse_polyline(s, anchor) is Some,
            ({
                let tail = spec_parse_polyline(s, anchor)->0;
                &&& tail.1 == goal.1
                &&& goal.0.len() == points@.len() - 1 + tail.0.len()
                &&& tail.0.len() >= 1
                &&& (forall|k: int|
                    0 <= k < points@.len() ==> (#[trigger] points@[k]).x == goal.0[k].x
                        && points@[k].y == goal.0[k].y)
                &&& (forall|k: int|
                    0 <= k < tail.0.len() ==> (#[trigger] tail.0[k]).x == goal.0[points@.len() - 1
                        + k].x && tail.0[k].y == goal.0[points@.len() - 1 + k].y)
            }),
        decreases v@.len() - pos,
    {
        let ghost tail = spec_parse_polyline(s, anchor)->0;
        let more = text::matches_at(&v, pos, " -> ");
        proof {
            reveal_strlit(" -> ");
            assert(" -> "@ =~= seq![' ', '-', '>', ' ']);
            if more {
                assert(s.subrange(pos as int, pos as int + 4) == seq![' ', '-', '>', ' ']);
            } else if pos + 4 <= s.len() {
                assert(s.subrange(pos as int, pos as int + 4) != seq![' ', '-', '>', ' ']);
            }
        }
        if more {
            match point_at(&v, pos + 4) {
                Some((p, nx2)) => {
                    proof {
                        lemma_point_advance(s, pos + 4);
                        lemma_polyline_some(s, pos + 4);
                        let tail2 = spec_parse_polyline(s, pos + 4)->0;
                        // One more arrow: the old tail is its head plus the
                        // new tail.
                        assert(tail.0 == seq![pt_val(spec_parse_point(s, anchor))] + tail2.0);
                        assert forall|k: int| 0 <= k < tail2.0.len() implies (
                        #[trigger] tail2.0[k]).x == goal.0[points@.len() + k].x && tail2.0[k].y
                            == goal.0[points@.len() + k].y by {
                            assert(tail.0[k + 1] == tail2.0[k]);
                        }
                        assert(tail2.0.len() >= 1);
                        assert(p.x == tail2.0[0].x && p.y == tail2.0[0].y) by {
                            assert(pt_val(spec_parse_point(s, pos + 4)).x == p.x);
                        }
                    }
                    proof {
                        anchor = pos + 4;
                    }
                    points.push(p);
                    pos = nx2;
                },
                None => {
                    proof {
                        // No point after the arrow: the spec stops here too.
                        assert(tail.0.len() == 1);
                        assert(goal.1 == pos as int);
                    }
                    break ;
                },
            }
        } else {
            proof {
                assert(tail.0.len() == 1);
                assert(goal.1 == pos as int);
            }
            break ;
        }
    }
    proof {
        assert(points@.len() == goal.0.len());
    }
    let rest = text::subrange_vec(&v, pos, v.len());
    proof {
        assert(rest@ =~= s.skip(goal.1));
    }
    Ok((text::string_from_chars(&rest), Polyline { points }))
}

} // verus!
