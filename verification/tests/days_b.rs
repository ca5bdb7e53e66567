use aoc22::day04;
use aoc22::day05;
use aoc22::day05::Command;
use aoc22::day06;
use aoc22::day06_no_std;
use aoc22::day07;
use aoc22::day08;

const SAMPLE04: &str = r"2-4,6-8
2-3,4-5
5-7,7-9
2-8,3-7
6-6,4-6
2-6,4-8";

#[test]
fn day04_part1_works() {
    let input = day04::parse(SAMPLE04);
    assert_eq!(2, day04::part1(&input));
}

#[test]
fn day04_part2_works() {
    let input = day04::parse(SAMPLE04);
    assert_eq!(4, day04::part2(&input));
}

const SAMPLE05: &str = "    [D]    
[N] [C]    
[Z] [M] [P]
 1   2   3 

move 1 from 2 to 1
move 3 from 1 to 3
move 2 from 2 to 1
move 1 from 1 to 2";

#[test]
fn parse_command_works() {
    assert_eq!(
        Command {
            quantity: 12,
            from: 333,
            to: 1
        },
        Command::parse("move 12 from 333 to 1")
    );
}

#[test]
fn day05_part1_works() {
    let input = day05::parse(SAMPLE05);
    assert_eq!("CMZ", day05::part1(&input));
}

#[test]
fn day05_part2_works() {
    let input = day05::parse(SAMPLE05);
    assert_eq!("MCD", day05::part2(&input));
}

const SAMPLE06: &str = r"mjqjpqmgbljsphdztnvjfqwrcgsmlb";

#[test]
fn day06_part1_works() {
    let input = day06::parse(SAMPLE06);
    assert_eq!(7, day06::part1(&input));
}

#[test]
fn day06_part2_works() {
    let input = day06::parse(SAMPLE06);
    assert_eq!(19, day06::part2(&input));
}

#[test]
fn day06_no_std_part1_works() {
    let mut parsed: Vec<char> = vec![' '; 1024];
    day06_no_std::parse(SAMPLE06, &mut parsed);
    assert_eq!(7, day06_no_std::part1(&parsed));
}

#[test]
fn day06_no_std_part2_works() {
    let mut parsed: Vec<char> = vec![' '; 1024];
    day06_no_std::parse(SAMPLE06, &mut parsed);
    assert_eq!(19, day06_no_std::part2(&parsed));
}

const SAMPLE07: &str = r"$ cd /
$ ls
dir a
14848514 b.txt
8504156 c.dat
dir d
$ cd a
$ ls
dir e
29116 f
2557 g
62596 h.lst
$ cd e
$ ls
584 i
$ cd ..
$ cd ..
$ cd d
$ ls
4060174 j
8033020 d.log
5626152 d.ext
7214296 k";

#[test]
fn day07_part1_works() {
    let input = day07::parse(SAMPLE07);
    println!("{:?}", input);
    assert_eq!(95437, day07::part1(&input));
}

#[test]
fn day07_part2_works() {
    let input = day07::parse(SAMPLE07);
    assert_eq!(24933642, day07::part2(&input));
}

const SAMPLE08: &str = r"30373
25512
65332
33549
35390";

#[test]
fn day08_part1_works() {
    let input = day08::parse(SAMPLE08);
    assert_eq!(21, day08::part1(&input));
}

#[test]
fn day08_part2_works() {
    let input = day08::parse(SAMPLE08);
    assert_eq!(8, day08::part2(&input));
}
