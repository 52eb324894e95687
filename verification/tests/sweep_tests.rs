use boustrophedon::analyzer::SweepError;
use boustrophedon::borders::find_borders;
use boustrophedon::region::{LineRegion, Point};
use boustrophedon::scanline::extract_regions;
use boustrophedon::sweep::{find_critical_points, sweep_rows};
use boustrophedon::workspace::Workspace;

fn scanline(labels: &str) -> Vec<u8> {
    let mut line = Vec::new();
    for c in labels.chars() {
        let sample: u8 = if c == '#' { 0 } else { 255 };
        line.push(sample);
        line.push(sample);
        line.push(sample);
    }
    line
}

fn rows(image: &[&str]) -> Vec<Vec<LineRegion>> {
    image.iter().map(|row| extract_regions(&scanline(row), row.len())).collect()
}

fn sweep(image: &[&str]) -> Result<Vec<Point>, SweepError> {
    let mut ws = Workspace::new(image[0].len());
    for row in image {
        ws.push_scanline(&scanline(row));
    }
    ws.critical_points()
}

fn point(x: usize, y: usize) -> Point {
    Point { x, y }
}

#[test]
fn all_free_image_has_no_margins_and_the_two_ends_of_its_one_cell() {
    let image = [".....", ".....", ".....", ".....", "....."];
    assert_eq!(find_borders(&rows(&image), 5, 5), (0, 0, 0, 0));
    assert_eq!(sweep(&image), Ok(vec![point(2, 0), point(2, 4)]));
}

#[test]
fn obstacle_column_over_all_rows_has_no_critical_point() {
    let image = ["..#..", "..#..", "..#..", "..#..", "..#.."];
    assert_eq!(rows(&image)[0].len(), 3);
    assert_eq!(sweep(&image), Ok(vec![]));
}

#[test]
fn obstacle_that_widens_is_no_split() {
    let image = ["..#..", "..#..", ".###.", ".###.", ".###."];
    assert_eq!(sweep(&image), Ok(vec![]));
}

#[test]
fn free_workspace_in_a_frame() {
    let image = [
        "#######",
        "#.....#",
        "#.....#",
        "#.....#",
        "#.....#",
        "#.....#",
        "#######",
    ];
    assert_eq!(sweep(&image), Ok(vec![point(3, 1), point(3, 5)]));
}

#[test]
fn free_workspace_in_a_thick_frame() {
    let image = [
        "########",
        "########",
        "##....##",
        "##....##",
        "##....##",
        "##....##",
        "########",
        "########",
    ];
    assert_eq!(sweep(&image), Ok(vec![point(4, 2), point(4, 5)]));
}

#[test]
fn block_in_a_free_image() {
    let image = [".....", ".....", ".##..", ".##..", ".....", "....."];
    assert_eq!(
        sweep(&image),
        Ok(vec![point(2, 0), point(2, 1), point(2, 4), point(2, 5)])
    );
}

#[test]
fn column_that_splits_gives_one_point_for_the_split() {
    let image = [".#####.", ".#####.", ".#...#.", ".#...#."];
    assert_eq!(sweep(&image), Ok(vec![point(3, 2), point(3, 3)]));
}

#[test]
fn columns_that_merge_give_one_point_for_the_merge() {
    let image = [".#...#.", ".#...#.", ".#####.", ".#####."];
    assert_eq!(sweep(&image), Ok(vec![point(3, 0), point(3, 1)]));
}

#[test]
fn block_in_a_framed_workspace() {
    let image = [
        "#########",
        "#.......#",
        "#..###..#",
        "#..###..#",
        "#.......#",
        "#########",
    ];
    assert_eq!(
        sweep(&image),
        Ok(vec![point(4, 1), point(4, 1), point(4, 4), point(4, 4)])
    );
}

#[test]
fn obstacle_at_the_side_of_a_framed_workspace() {
    let image = [
        "#######",
        "#.....#",
        "###...#",
        "###...#",
        "#.....#",
        "#######",
    ];
    assert_eq!(sweep(&image), Ok(vec![point(3, 1), point(2, 1), point(2, 4), point(3, 4)]));
}

#[test]
fn points_come_row_by_row() {
    let image = ["......", ".#....", "....#.", "......", "......"];
    assert_eq!(
        sweep(&image),
        Ok(vec![
            point(3, 0),
            point(1, 0),
            point(1, 2),
            point(4, 1),
            point(4, 3),
            point(3, 4),
        ])
    );
}

#[test]
fn image_without_free_row_has_no_interior() {
    assert_eq!(sweep(&["###", "###", "###"]), Err(SweepError::EmptyInterior));
}

#[test]
fn image_of_one_row_has_no_interior() {
    assert_eq!(sweep(&["....."]), Err(SweepError::EmptyInterior));
    assert_eq!(sweep(&["#...#"]), Err(SweepError::EmptyInterior));
}

#[test]
fn image_without_rows_has_no_interior() {
    let ws = Workspace::new(4);
    assert_eq!(ws.critical_points(), Err(SweepError::EmptyInterior));
    assert_eq!(find_critical_points(&Vec::new(), 4, 0), Err(SweepError::EmptyInterior));
}

#[test]
fn image_whose_rows_after_the_top_are_walls_has_no_interior() {
    assert_eq!(sweep(&["....", "####", "####"]), Err(SweepError::EmptyInterior));
}

#[test]
fn three_obstacles_in_the_first_row_are_not_supported() {
    assert_eq!(sweep(&["#.#.#", "....."]), Err(SweepError::UnsupportedTopology));
}

#[test]
fn three_obstacles_in_the_last_row_are_not_supported() {
    assert_eq!(sweep(&[".......", ".#.#.#."]), Err(SweepError::UnsupportedTopology));
}

#[test]
fn obstacles_in_the_side_margins_are_cut_away() {
    assert_eq!(sweep(&[".....", "#.#.#"]), Ok(vec![point(2, 0), point(2, 0)]));
}

#[test]
fn comb_inside_the_workspace_is_not_supported() {
    let image = [".......", ".#####.", ".#.#.#.", "......."];
    assert_eq!(sweep(&image), Err(SweepError::UnsupportedTopology));
}

#[test]
fn rows_are_taken_in_one_by_one() {
    let mut ws = Workspace::new(5);
    assert_eq!(ws.width(), 5);
    assert_eq!(ws.height(), 0);
    ws.push_scanline(&scanline("..#.."));
    assert_eq!(ws.height(), 1);
    ws.push_scanline(&scanline("#####"));
    assert_eq!(ws.height(), 2);
    assert_eq!(
        ws.row(0),
        &vec![
            LineRegion { obstacle: false, start: 0, end: 2 },
            LineRegion { obstacle: true, start: 2, end: 3 },
            LineRegion { obstacle: false, start: 3, end: 5 },
        ]
    );
    assert_eq!(ws.row(1), &vec![LineRegion { obstacle: true, start: 0, end: 5 }]);
    assert_eq!(ws.width(), 5);
}

#[test]
fn rows_given_at_once_have_the_points_of_rows_taken_in() {
    let image = [".....", ".....", ".##..", ".##..", ".....", "....."];
    assert_eq!(find_critical_points(&rows(&image), 5, 6), sweep(&image));
    let framed = ["#######", "#.....#", "###...#", "###...#", "#.....#", "#######"];
    assert_eq!(find_critical_points(&rows(&framed), 7, 6), sweep(&framed));
}

#[test]
fn rows_between_two_solid_rows() {
    let inner = vec![
        vec![LineRegion { obstacle: false, start: 1, end: 4 }],
        vec![
            LineRegion { obstacle: true, start: 1, end: 2 },
            LineRegion { obstacle: false, start: 2, end: 4 },
        ],
    ];
    assert_eq!(sweep_rows(&inner, 3, 1, 4), Ok(vec![point(2, 3), point(1, 3)]));
}

#[test]
fn two_solid_rows_with_nothing_between() {
    assert_eq!(sweep_rows(&Vec::new(), 0, 2, 9), Ok(vec![]));
}
