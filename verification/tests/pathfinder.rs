use aoc22::day12;
use aoc22::day12::HeightMap;

const SAMPLE12: &str = r"Sabqponm
abcryxxl
accszExk
acctuvwj
abdefghi";

#[test]
fn day12_part1_works() {
    let input = day12::parse(SAMPLE12);
    assert_eq!(31, day12::part1(&input));
}

#[test]
fn day12_part2_works() {
    let input = day12::parse(SAMPLE12);
    assert_eq!(29, day12::part2(&input));
}

#[test]
fn day12_parse_marks_start_and_end() {
    let input = day12::parse(SAMPLE12);
    assert_eq!((0, 0), input.start);
    assert_eq!((2, 5), input.end);
    assert_eq!(0, input.heights[0][0]);
    assert_eq!(25, input.heights[2][5]);
    assert_eq!(0, input.heights[0][1]);
    assert_eq!(1, input.heights[0][2]);
}

#[test]
fn day12_trivial_path_is_zero() {
    let map = HeightMap {
        start: (0, 0),
        end: (0, 0),
        heights: vec![vec![0]],
    };
    assert_eq!(Some(0), day12::shortest_path_length(&map, (0, 0), (0, 0)));
}

#[test]
fn day12_same_cell_is_zero_even_midgrid() {
    let input = day12::parse(SAMPLE12);
    assert_eq!(Some(0), day12::shortest_path_length(&input, (3, 4), (3, 4)));
}

#[test]
fn day12_unreachable_end_is_none() {
    // The end towers twenty-five classes above its only neighbours.
    let map = day12::parse("SaE");
    assert_eq!(
        None,
        day12::shortest_path_length(&map, map.start, map.end)
    );
}

#[test]
fn day12_step_rule_is_directional() {
    // A rise of two blocks the way in; the reverse descent is legal.
    assert!(!day12::can_travel(0, 2));
    assert!(day12::can_travel(2, 0));
    assert!(day12::can_travel(0, 1));
    assert!(day12::can_travel(7, 7));
}

#[test]
fn day12_best_over_explicit_candidates() {
    let input = day12::parse(SAMPLE12);
    // The lone start candidate reproduces the single-source answer.
    assert_eq!(
        Some(31),
        day12::best_shortest_path_length(&input, &vec![input.start], input.end)
    );
    // An empty candidate set reaches nothing.
    assert_eq!(
        None,
        day12::best_shortest_path_length(&input, &vec![], input.end)
    );
    // Adding a better lowest-elevation source improves the minimum.
    assert_eq!(
        Some(29),
        day12::best_shortest_path_length(&input, &vec![input.start, (4, 0)], input.end)
    );
}
