use boustrophedon::pixel::{is_obstacle_rgb, OBSTACLE_THRESHOLD};

#[test]
fn threshold_is_half_of_the_largest_sum_rounded_up() {
    assert_eq!(OBSTACLE_THRESHOLD, 384);
    assert_eq!(OBSTACLE_THRESHOLD, 0x180);
}

#[test]
fn black_pixel_is_an_obstacle() {
    assert!(is_obstacle_rgb(&vec![0, 0, 0], 0));
}

#[test]
fn white_pixel_is_free() {
    assert!(!is_obstacle_rgb(&vec![255, 255, 255], 0));
}

#[test]
fn sum_just_below_the_threshold_is_an_obstacle() {
    assert!(is_obstacle_rgb(&vec![127, 128, 128], 0));
    assert!(is_obstacle_rgb(&vec![255, 128, 0], 0));
    assert!(is_obstacle_rgb(&vec![0, 128, 255], 0));
}

#[test]
fn sum_at_the_threshold_is_free() {
    assert!(!is_obstacle_rgb(&vec![128, 128, 128], 0));
    assert!(!is_obstacle_rgb(&vec![255, 129, 0], 0));
    assert!(!is_obstacle_rgb(&vec![0, 129, 255], 0));
}

#[test]
fn each_sample_counts_the_same() {
    assert!(is_obstacle_rgb(&vec![255, 0, 0], 0));
    assert!(is_obstacle_rgb(&vec![0, 255, 0], 0));
    assert!(is_obstacle_rgb(&vec![0, 0, 255], 0));
    assert!(!is_obstacle_rgb(&vec![255, 255, 0], 0));
    assert!(!is_obstacle_rgb(&vec![0, 255, 255], 0));
    assert!(!is_obstacle_rgb(&vec![255, 0, 255], 0));
}

#[test]
fn pixel_is_read_at_three_times_its_index() {
    let line: Vec<u8> = vec![255, 255, 255, 0, 0, 0, 255, 255, 255, 10, 20, 30];
    assert!(!is_obstacle_rgb(&line, 0));
    assert!(is_obstacle_rgb(&line, 1));
    assert!(!is_obstacle_rgb(&line, 2));
    assert!(is_obstacle_rgb(&line, 3));
}
