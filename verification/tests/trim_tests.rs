use boustrophedon::borders::find_borders;
use boustrophedon::region::LineRegion;
use boustrophedon::scanline::extract_regions;
use boustrophedon::trim::{clamp_regions, trim_rows};

fn scanline(labels: &str) -> Vec<u8> {
    let mut line = Vec::new();
    for c in labels.chars() {
        let sample: u8 = if c == '#' { 0 } else { 255 };
        line.push(sample);
        line.push(sample);
        line.push(sample);
    }
    line
}

fn row(labels: &str) -> Vec<LineRegion> {
    extract_regions(&scanline(labels), labels.len())
}

fn rows(image: &[&str]) -> Vec<Vec<LineRegion>> {
    image.iter().map(|labels| row(labels)).collect()
}

fn region(obstacle: bool, start: usize, end: usize) -> LineRegion {
    LineRegion { obstacle, start, end }
}

fn trimmed(image: &[&str]) -> (Vec<Vec<LineRegion>>, usize) {
    let w = image[0].len();
    let all = rows(image);
    let (top, bottom, left, right) = find_borders(&all, w, all.len());
    (trim_rows(&all, top, bottom, left, w - right), w)
}

#[test]
fn cutting_moves_the_ends_of_the_outer_regions() {
    assert_eq!(
        clamp_regions(&row("#..##"), 1, 4),
        vec![region(false, 1, 3), region(true, 3, 4)]
    );
}

#[test]
fn regions_outside_are_dropped() {
    assert_eq!(clamp_regions(&row("#..##"), 3, 5), vec![region(true, 3, 5)]);
    assert_eq!(clamp_regions(&row("#..##"), 0, 1), vec![region(true, 0, 1)]);
}

#[test]
fn region_wider_than_the_cut_is_cut_on_both_sides() {
    assert_eq!(clamp_regions(&row("....."), 2, 3), vec![region(false, 2, 3)]);
}

#[test]
fn cut_over_the_whole_row_changes_nothing() {
    assert_eq!(clamp_regions(&row("#.#.#"), 0, 5), row("#.#.#"));
}

#[test]
fn empty_cut_leaves_no_region() {
    assert_eq!(clamp_regions(&row("#.#.#"), 2, 2), Vec::new());
    assert_eq!(clamp_regions(&row("#.#.#"), 4, 1), Vec::new());
}

#[test]
fn second_region_is_cut_too_where_the_first_is_narrow() {
    assert_eq!(
        clamp_regions(&row(".###"), 2, 4),
        vec![region(true, 2, 4)]
    );
}

#[test]
fn rows_of_the_frame_are_left_out() {
    let all = rows(&["#####", "#...#", "#.#.#", "#####", "#####"]);
    let kept = trim_rows(&all, 1, 1, 1, 4);
    assert_eq!(
        kept,
        vec![
            vec![region(false, 1, 4)],
            vec![region(false, 1, 2), region(true, 2, 3), region(false, 3, 4)],
            vec![region(true, 1, 4)],
        ]
    );
}

#[test]
fn nothing_is_kept_where_top_and_bottom_meet() {
    let all = rows(&["...", "...", "..."]);
    assert_eq!(trim_rows(&all, 2, 1, 0, 3), Vec::<Vec<LineRegion>>::new());
    assert_eq!(trim_rows(&all, 0, 3, 0, 3), Vec::<Vec<LineRegion>>::new());
}

#[test]
fn workspace_of_a_frame_of_one_pixel_has_no_frame() {
    let (kept, w) = trimmed(&[
        "#######",
        "#.....#",
        "#.....#",
        "#.....#",
        "#.....#",
        "#.....#",
        "#######",
    ]);
    assert_eq!(kept.len(), 6);
    assert_eq!(find_borders(&kept, w, kept.len()), (0, 0, 0, 0));
}

#[test]
fn workspace_of_a_frame_of_two_pixels_has_no_frame() {
    let (kept, w) = trimmed(&[
        "########",
        "########",
        "##....##",
        "##....##",
        "##....##",
        "##....##",
        "########",
        "########",
    ]);
    assert_eq!(kept.len(), 5);
    assert_eq!(find_borders(&kept, w, kept.len()), (0, 0, 0, 0));
}

#[test]
fn workspace_with_obstacles_has_no_frame() {
    let (kept, w) = trimmed(&[
        "#######",
        "#..#..#",
        "#.....#",
        "###...#",
        "#....##",
        "#######",
    ]);
    assert_eq!(find_borders(&kept, w, kept.len()), (0, 0, 0, 0));
}

#[test]
fn workspace_of_an_image_without_frame_has_no_frame() {
    let (kept, w) = trimmed(&[".....", "..#..", ".....", "....."]);
    assert_eq!(kept, rows(&[".....", "..#..", ".....", "....."]));
    assert_eq!(find_borders(&kept, w, kept.len()), (0, 0, 0, 0));
}
