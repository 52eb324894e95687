use boustrophedon::pixel::is_obstacle_rgb;
use boustrophedon::region::LineRegion;
use boustrophedon::scanline::extract_regions;

fn scanline(labels: &str) -> Vec<u8> {
    let mut line = Vec::new();
    for c in labels.chars() {
        let sample: u8 = if c == '#' { 0 } else { 255 };
        line.push(sample);
        line.push(sample);
        line.push(sample);
    }
    line
}

fn region(obstacle: bool, start: usize, end: usize) -> LineRegion {
    LineRegion { obstacle, start, end }
}

#[test]
fn uniform_free_row_is_one_region() {
    assert_eq!(extract_regions(&scanline("....."), 5), vec![region(false, 0, 5)]);
}

#[test]
fn uniform_obstacle_row_is_one_region() {
    assert_eq!(extract_regions(&scanline("#####"), 5), vec![region(true, 0, 5)]);
}

#[test]
fn row_of_one_pixel() {
    assert_eq!(extract_regions(&scanline("#"), 1), vec![region(true, 0, 1)]);
    assert_eq!(extract_regions(&scanline("."), 1), vec![region(false, 0, 1)]);
}

#[test]
fn last_region_has_the_label_of_the_last_pixel() {
    assert_eq!(
        extract_regions(&scanline("..#"), 3),
        vec![region(false, 0, 2), region(true, 2, 3)]
    );
    assert_eq!(
        extract_regions(&scanline("##."), 3),
        vec![region(true, 0, 2), region(false, 2, 3)]
    );
}

#[test]
fn runs_of_several_lengths() {
    assert_eq!(
        extract_regions(&scanline("#..##.#"), 7),
        vec![
            region(true, 0, 1),
            region(false, 1, 3),
            region(true, 3, 5),
            region(false, 5, 6),
            region(true, 6, 7),
        ]
    );
}

#[test]
fn column_in_the_middle_gives_three_regions() {
    assert_eq!(
        extract_regions(&scanline("..#.."), 5),
        vec![region(false, 0, 2), region(true, 2, 3), region(false, 3, 5)]
    );
}

#[test]
fn only_the_first_w_pixels_are_read() {
    assert_eq!(
        extract_regions(&scanline("..##.#"), 4),
        vec![region(false, 0, 2), region(true, 2, 4)]
    );
}

#[test]
fn grey_levels_are_cut_at_the_threshold() {
    let line: Vec<u8> = vec![127, 128, 128, 128, 128, 128, 200, 100, 83, 200, 100, 84];
    assert_eq!(
        extract_regions(&line, 4),
        vec![region(true, 0, 1), region(false, 1, 2), region(true, 2, 3), region(false, 3, 4)]
    );
}

#[test]
fn regions_cover_the_row_in_order_with_alternating_labels() {
    let line = scanline("##.#...###.#.");
    let w = 13;
    let regions = extract_regions(&line, w);
    assert_eq!(regions[0].start, 0);
    assert_eq!(regions[regions.len() - 1].end, w);
    for r in &regions {
        assert!(r.start < r.end);
    }
    for i in 1..regions.len() {
        assert_eq!(regions[i - 1].end, regions[i].start);
        assert_ne!(regions[i - 1].obstacle, regions[i].obstacle);
    }
}

#[test]
fn region_is_an_obstacle_iff_all_its_pixels_are() {
    let line = scanline("##.#...###.#.");
    let regions = extract_regions(&line, 13);
    for r in &regions {
        let mut all = true;
        for x in r.start..r.end {
            all = all && is_obstacle_rgb(&line, x);
        }
        assert_eq!(r.obstacle, all);
    }
}
