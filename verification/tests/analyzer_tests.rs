use boustrophedon::analyzer::{overlap, row_transition, SweepError};
use boustrophedon::region::{LineRegion, Point};
use boustrophedon::scanline::extract_regions;

fn scanline(labels: &str) -> Vec<u8> {
    let mut line = Vec::new();
    for c in labels.chars() {
        let sample: u8 = if c == '#' { 0 } else { 255 };
        line.push(sample);
        line.push(sample);
        line.push(sample);
    }
    line
}

fn row(labels: &str) -> Vec<LineRegion> {
    extract_regions(&scanline(labels), labels.len())
}

fn region(start: usize, end: usize) -> LineRegion {
    LineRegion { obstacle: true, start, end }
}

fn between(prev: &str, curr: &str, y: usize) -> Result<Vec<Point>, SweepError> {
    row_transition(&row(prev), &row(curr), y)
}

fn point(x: usize, y: usize) -> Point {
    Point { x, y }
}

#[test]
fn regions_that_share_a_column_overlap() {
    assert!(overlap(&region(2, 3), &region(1, 4)));
    assert!(overlap(&region(1, 4), &region(2, 3)));
    assert!(overlap(&region(0, 3), &region(2, 5)));
    assert!(overlap(&region(2, 5), &region(0, 3)));
    assert!(overlap(&region(1, 2), &region(1, 2)));
}

#[test]
fn regions_that_only_touch_do_not_overlap() {
    assert!(!overlap(&region(0, 2), &region(2, 5)));
    assert!(!overlap(&region(2, 5), &region(0, 2)));
    assert!(!overlap(&region(0, 1), &region(3, 4)));
    assert!(!overlap(&region(3, 4), &region(0, 1)));
}

#[test]
fn overlap_does_not_ask_for_the_label() {
    let free = LineRegion { obstacle: false, start: 0, end: 3 };
    assert!(overlap(&free, &region(2, 5)));
}

#[test]
fn region_that_ends_gives_its_middle_at_the_lower_row() {
    assert_eq!(between(".#.", "...", 3), Ok(vec![point(1, 3)]));
    assert_eq!(between(".####.", "......", 7), Ok(vec![point(3, 7)]));
}

#[test]
fn region_that_begins_gives_its_middle_at_the_upper_row() {
    assert_eq!(between("...", ".#.", 3), Ok(vec![point(1, 2)]));
    assert_eq!(between(".....", ".###.", 1), Ok(vec![point(2, 0)]));
}

#[test]
fn middle_is_rounded_down() {
    assert_eq!(between("#", ".", 1), Ok(vec![point(0, 1)]));
    assert_eq!(between("##", "..", 1), Ok(vec![point(1, 1)]));
    assert_eq!(between(".##", "...", 1), Ok(vec![point(2, 1)]));
    assert_eq!(between("..##", "....", 1), Ok(vec![point(3, 1)]));
}

#[test]
fn region_that_splits_gives_the_middle_of_the_gap_at_the_lower_row() {
    assert_eq!(between(".#####.", ".#...#.", 2), Ok(vec![point(3, 2)]));
    assert_eq!(between(".######", ".#...##", 5), Ok(vec![point(3, 5)]));
    assert_eq!(between(".######", ".#....#", 5), Ok(vec![point(4, 5)]));
}

#[test]
fn regions_that_merge_give_the_middle_of_the_gap_at_the_upper_row() {
    assert_eq!(between(".#...#.", ".#####.", 2), Ok(vec![point(3, 1)]));
    assert_eq!(between("##.....#", "########", 9), Ok(vec![point(4, 8)]));
}

#[test]
fn region_that_goes_on_gives_nothing() {
    assert_eq!(between("..#..", "..#..", 4), Ok(vec![]));
    assert_eq!(between("#.#.#", "#.#.#", 4), Ok(vec![]));
}

#[test]
fn region_that_widens_or_narrows_gives_nothing() {
    assert_eq!(between("..#..", ".###.", 2), Ok(vec![]));
    assert_eq!(between(".###.", "..#..", 2), Ok(vec![]));
    assert_eq!(between("##...", ".##..", 2), Ok(vec![]));
}

#[test]
fn rows_without_obstacles_give_nothing() {
    assert_eq!(between(".....", ".....", 1), Ok(vec![]));
    assert_eq!(between(".....", ".....", 0), Ok(vec![]));
}

#[test]
fn regions_that_only_touch_end_and_begin() {
    assert_eq!(between("##...", "..###", 6), Ok(vec![point(1, 6), point(3, 5)]));
}

#[test]
fn points_of_the_upper_row_come_first() {
    assert_eq!(between("#....", "....#", 2), Ok(vec![point(0, 2), point(4, 1)]));
    assert_eq!(between("....#", "#....", 2), Ok(vec![point(4, 2), point(0, 1)]));
}

#[test]
fn points_of_one_row_come_from_left_to_right() {
    assert_eq!(between("#...#", ".....", 2), Ok(vec![point(0, 2), point(4, 2)]));
    assert_eq!(between(".....", "#.#.#", 2), Ok(vec![point(0, 1), point(2, 1), point(4, 1)]));
}

#[test]
fn split_and_end_in_one_pair() {
    assert_eq!(
        between("###..#...", "#.#......", 4),
        Ok(vec![point(1, 4), point(5, 4)])
    );
}

#[test]
fn merge_and_begin_in_one_pair() {
    assert_eq!(
        between("#.#......", "###..#...", 4),
        Ok(vec![point(1, 3), point(5, 3)])
    );
}

#[test]
fn first_row_may_be_compared_where_nothing_begins() {
    assert_eq!(between("#####", "..#..", 0), Ok(vec![]));
    assert_eq!(between("#####", ".....", 0), Ok(vec![point(2, 0)]));
    assert_eq!(between("#####", "#...#", 0), Ok(vec![point(2, 0)]));
}

#[test]
fn three_neighbours_below_are_not_supported() {
    assert_eq!(between("#####", "#.#.#", 1), Err(SweepError::UnsupportedTopology));
    assert_eq!(between("#######", "#.#.#.#", 1), Err(SweepError::UnsupportedTopology));
}

#[test]
fn three_neighbours_above_are_not_supported() {
    assert_eq!(between("#.#.#", "#####", 1), Err(SweepError::UnsupportedTopology));
}

#[test]
fn rows_need_not_cover_the_same_pixels() {
    let prev = vec![region(10, 20)];
    let curr = vec![region(0, 11), region(19, 30), region(40, 45)];
    assert_eq!(row_transition(&prev, &curr, 8), Ok(vec![point(15, 8), point(42, 7)]));
}
