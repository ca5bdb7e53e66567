use aoc22::day09;
use aoc22::day10;
use aoc22::day10::Op;
use aoc22::day11;

const SAMPLE09: &str = r"R 4
U 4
L 3
D 1
R 4
D 1
L 5
R 2";

#[test]
fn day09_part1_works() {
    let input = day09::parse(SAMPLE09);
    assert_eq!(13, day09::part1(&input));
}

const SAMPLE10: &str = r"addx 15
addx -11
addx 6
addx -3
addx 5
addx -1
addx -8
addx 13
addx 4
noop
addx -1
addx 5
addx -1
addx 5
addx -1
addx 5
addx -1
addx 5
addx -1
addx -35
addx 1
addx 24
addx -19
addx 1
addx 16
addx -11
noop
noop
addx 21
addx -15
noop
noop
addx -3
addx 9
addx 1
addx -3
addx 8
addx 1
addx 5
noop
noop
noop
noop
noop
addx -36
noop
addx 1
addx 7
noop
noop
noop
addx 2
addx 6
noop
noop
noop
noop
noop
addx 1
noop
noop
addx 7
addx 1
noop
addx -13
addx 13
addx 7
noop
addx 1
addx -33
noop
noop
noop
addx 2
noop
noop
noop
addx 8
noop
addx -1
addx 2
addx 1
noop
addx 17
addx -9
addx 1
addx 1
addx -3
addx 11
noop
noop
addx 1
noop
addx 1
noop
noop
addx -13
addx -19
addx 1
addx 3
addx 26
addx -30
addx 12
addx -1
addx 3
addx 1
noop
noop
noop
addx -9
addx 18
addx 1
addx 2
noop
noop
addx 9
noop
noop
noop
addx -1
addx 2
addx -37
addx 1
addx 3
noop
addx 15
addx -21
addx 22
addx -6
addx 1
noop
addx 2
addx 1
noop
addx -10
noop
noop
addx 20
addx 1
addx 2
addx 2
addx -6
addx -11
noop
noop
noop";

#[test]
fn day10_part1_works() {
    let input = day10::parse(SAMPLE10);
    assert_eq!(13140, day10::part1(&input));
}

#[test]
fn day10_part2_renders_one_pixel_per_cycle() {
    assert_eq!("\n#\n\n", day10::part2(&[Op::NoOp]));
    assert_eq!("\n##\n\n", day10::part2(&[Op::NoOp, Op::NoOp]));
}

const SAMPLE11: &str = r"
Monkey 0:
  Starting items: 79, 98
  Operation: new = old * 19
  Test: divisible by 23
    If true: throw to monkey 2
    If false: throw to monkey 3

Monkey 1:
  Starting items: 54, 65, 75, 74
  Operation: new = old + 6
  Test: divisible by 19
    If true: throw to monkey 2
    If false: throw to monkey 0

Monkey 2:
  Starting items: 79, 60, 97
  Operation: new = old * old
  Test: divisible by 13
    If true: throw to monkey 1
    If false: throw to monkey 3

Monkey 3:
  Starting items: 74
  Operation: new = old + 3
  Test: divisible by 17
    If true: throw to monkey 0
    If false: throw to monkey 1";

#[test]
fn day11_part1_works() {
    let input = day11::parse(SAMPLE11);
    assert_eq!(10605, day11::part1(&input));
}

#[test]
fn day14_parse_point_works() {
    let (rest, p) = aoc22::day14::parse_point("123,456 tail").unwrap();
    assert_eq!(123, p.x);
    assert_eq!(456, p.y);
    assert_eq!(" tail", rest);
    assert!(aoc22::day14::parse_point(",7").is_err());
    assert!(aoc22::day14::parse_point("12;7").is_err());
}

#[test]
fn day14_parse_polyline_works() {
    let (rest, line) = aoc22::day14::parse_polyline("498,4 -> 498,6 -> 496,6").unwrap();
    assert_eq!("", rest);
    assert_eq!(3, line.points.len());
    assert_eq!(498, line.points[0].x);
    assert_eq!(4, line.points[0].y);
    assert_eq!(496, line.points[2].x);
    assert_eq!(6, line.points[2].y);
    let (rest, line) = aoc22::day14::parse_polyline("1,2 -> x").unwrap();
    assert_eq!(1, line.points.len());
    assert_eq!(" -> x", rest);
}

const SAMPLE13: &str = r"[1,1,3,1,1]
[1,1,5,1,1]

[[1],[2,3,4]]
[[1],4]

[9]
[[8,7,6]]

[[4,4],4,4]
[[4,4],4,4,4]

[7,7,7,7]
[7,7,7]

[]
[3]

[[[]]]
[[]]

[1,[2,[3,[4,[5,6,7]]]],8,9]
[1,[2,[3,[4,[5,6,0]]]],8,9]";

#[test]
fn day13_part1_works() {
    let input = aoc22::day13::parse(SAMPLE13);
    assert_eq!(13, aoc22::day13::part1(&input));
}

#[test]
fn day13_ordering_cases() {
    assert!(aoc22::day13::in_correct_order("[1,1,3,1,1]", "[1,1,5,1,1]"));
    assert!(aoc22::day13::in_correct_order("[9]", "[[8,7,6]]") == false);
    assert!(aoc22::day13::in_correct_order("[7,7,7,7]", "[7,7,7]") == false);
    assert!(aoc22::day13::in_correct_order("[[[]]]", "[[]]") == false);
    assert!(aoc22::day13::in_correct_order("[]", "[3]"));
}
