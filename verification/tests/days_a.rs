use aoc22::day00;
use aoc22::day01;
use aoc22::day01_functional;
use aoc22::day01_procedural;
use aoc22::day02;
use aoc22::day03;

#[test]
fn parse_works() {
    assert_eq!(vec![-1, 0, 42], day00::parse("-1\n0\n42").unwrap());
}

#[test]
fn parse_works_with_extra_lf() {
    assert_eq!(vec![42], day00::parse("42\n").unwrap());
}

#[test]
fn day00_part1_works() {
    assert_eq!(1 + 2 + 3, day00::part1(&[1, 2, 3]));
}

#[test]
fn day00_part2_works() {
    assert_eq!(2 + 4 + 6, day00::part2(&[1, 2, 3]));
}

#[test]
fn day00_parse_rejects_junk() {
    assert!(day00::parse("12\nnope\n3").is_err());
}

#[test]
fn day01_part1_works() {
    let input = day01::parse(
        r#"1000
            2000
            3000

            4000

            5000
            6000

            7000
            8000
            9000

            10000"#,
    )
    .unwrap();
    assert_eq!(24000, day01::part1(&input));
}

#[test]
fn day01_part2_works() {
    assert_eq!(42, day01::part2(&[1, 2, 3]));
}

#[test]
fn day01_run_works() {
    assert_eq!((6000, 42), day01::run("1000\n2000\n3000").unwrap());
}

#[test]
fn day01_parse_rejects_junk() {
    assert!(day01::parse("1000\nx0\n3000").is_err());
}

const SAMPLE01: &str = r"1000
2000
3000

4000

5000
6000

7000
8000
9000

10000";

#[test]
fn day01_functional_part1_works() {
    let input = day01_functional::parse(SAMPLE01).unwrap();
    assert_eq!(24000, day01_functional::part1(&input));
}

#[test]
fn day01_functional_part2_works() {
    let input = day01_functional::parse(SAMPLE01).unwrap();
    assert_eq!(45000, day01_functional::part2(&input));
}

#[test]
fn day01_procedural_part1_works() {
    let input = day01_procedural::parse(SAMPLE01);
    assert_eq!(24000, day01_procedural::part1(&input));
}

#[test]
fn day01_procedural_part2_works() {
    let input = day01_procedural::parse(SAMPLE01);
    assert_eq!(45000, day01_procedural::part2(&input));
}

const SAMPLE02: &str = r#"A Y
B X
C Z"#;

#[test]
fn day02_part1_works() {
    let input = day02::parse(SAMPLE02).unwrap();
    assert_eq!(15, day02::part1(&input));
}

#[test]
fn day02_part2_works() {
    let input = day02::parse(SAMPLE02).unwrap();
    assert_eq!(12, day02::part2(&input));
}

#[test]
fn day02_parse_line_rejects_junk() {
    assert!(day02::parse_line("Q Z").is_err());
    assert!(day02::parse_line("A").is_err());
}

const SAMPLE03: &str = r#"vJrwpWtwJgWrhcsFMMfFFhFp
jqHRNqRjqzjGDLGLrsFMfFZSrLrFZsSL
PmmdzqPrVvPwwTWBwg
wMqvLMZHhHMvwLHjbvcjnnSBnvTQFn
ttgJtRGJQctTZtZT
CrZsJsPPZsGzwwsLwLmpwMDw"#;

#[test]
fn day03_part1_works() {
    let input = day03::parse1(SAMPLE03);
    assert_eq!(157, day03::part1(&input));
}

#[test]
fn day03_part2_works() {
    let input = day03::parse2(SAMPLE03);
    assert_eq!(70, day03::part2(&input));
}

#[test]
fn day03_item_priority_table() {
    assert_eq!(1, day03::item_priority('a'));
    assert_eq!(26, day03::item_priority('z'));
    assert_eq!(27, day03::item_priority('A'));
    assert_eq!(52, day03::item_priority('Z'));
    assert_eq!(0, day03::item_priority('?'));
}

#[test]
fn day03_split_rucksack_halves() {
    let (a, b) = day03::split_rucksack("abcdef");
    assert_eq!("abc", a);
    assert_eq!("def", b);
}
