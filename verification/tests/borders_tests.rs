use boustrophedon::borders::{find_borders, has_free_region};
use boustrophedon::region::LineRegion;
use boustrophedon::scanline::extract_regions;

fn scanline(labels: &str) -> Vec<u8> {
    let mut line = Vec::new();
    for c in labels.chars() {
        let sample: u8 = if c == '#' { 0 } else { 255 };
        line.push(sample);
        line.push(sample);
        line.push(sample);
    }
    line
}

fn rows(image: &[&str]) -> Vec<Vec<LineRegion>> {
    image.iter().map(|row| extract_regions(&scanline(row), row.len())).collect()
}

fn borders(image: &[&str]) -> (usize, usize, usize, usize) {
    let w = if image.is_empty() { 0 } else { image[0].len() };
    find_borders(&rows(image), w, image.len())
}

#[test]
fn free_region_is_found_anywhere_in_the_row() {
    assert!(has_free_region(&extract_regions(&scanline("...."), 4)));
    assert!(has_free_region(&extract_regions(&scanline("###."), 4)));
    assert!(has_free_region(&extract_regions(&scanline("#.##"), 4)));
    assert!(!has_free_region(&extract_regions(&scanline("####"), 4)));
    assert!(!has_free_region(&Vec::new()));
}

#[test]
fn all_free_image_has_no_margins() {
    let image = [".....", ".....", ".....", ".....", "....."];
    assert_eq!(borders(&image), (0, 0, 0, 0));
}

#[test]
fn image_without_rows_keeps_the_starting_margins() {
    assert_eq!(find_borders(&Vec::new(), 7, 0), (0, 0, 7, 7));
}

#[test]
fn all_obstacle_image_keeps_the_starting_margins() {
    let image = ["###", "###", "###"];
    assert_eq!(borders(&image), (0, 0, 3, 3));
}

#[test]
fn single_row_narrows_no_side() {
    assert_eq!(borders(&["....."]), (0, 0, 5, 5));
}

#[test]
fn row_of_the_top_narrows_no_side() {
    let image = ["###", "#.#"];
    assert_eq!(borders(&image), (1, 0, 3, 3));
}

#[test]
fn frame_of_one_pixel() {
    let image = [
        "#######",
        "#.....#",
        "#.....#",
        "#.....#",
        "#.....#",
        "#.....#",
        "#######",
    ];
    assert_eq!(borders(&image), (1, 0, 1, 1));
}

#[test]
fn frame_of_two_pixels() {
    let image = [
        "########",
        "########",
        "##....##",
        "##....##",
        "##....##",
        "##....##",
        "########",
        "########",
    ];
    assert_eq!(borders(&image), (2, 1, 2, 2));
}

#[test]
fn frame_of_three_rows_at_the_bottom() {
    let image = ["....", "....", "####", "####", "####"];
    assert_eq!(borders(&image), (0, 2, 0, 0));
}

#[test]
fn wall_across_the_workspace_is_no_bottom_frame() {
    let image = ["....", "####", "....", "...."];
    assert_eq!(borders(&image), (0, 0, 0, 0));
}

#[test]
fn row_after_a_wall_narrows_no_side() {
    let image = ["....", "####", "####", "...."];
    assert_eq!(borders(&image), (0, 0, 4, 4));
}

#[test]
fn count_of_the_bottom_starts_again_after_a_free_row() {
    let image = ["....", "####", "####", "#..#", "#..#", "####", "####"];
    assert_eq!(borders(&image), (0, 1, 1, 1));
}

#[test]
fn left_margin_is_the_narrowest_first_obstacle() {
    let image = ["....", "##..", "#...", "###."];
    assert_eq!(borders(&image), (0, 0, 1, 0));
}

#[test]
fn right_margin_is_the_narrowest_last_obstacle() {
    let image = ["....", "..##", ".###"];
    assert_eq!(borders(&image), (0, 0, 0, 2));
}

#[test]
fn one_row_that_begins_free_takes_the_left_margin_away() {
    let image = ["....", "##.#", "..##", "#.##"];
    assert_eq!(borders(&image), (0, 0, 0, 1));
}

#[test]
fn obstacles_inside_the_frame_do_not_count() {
    let image = [
        "#######",
        "#..#..#",
        "#.....#",
        "#.##..#",
        "#######",
    ];
    assert_eq!(borders(&image), (1, 0, 1, 1));
}
