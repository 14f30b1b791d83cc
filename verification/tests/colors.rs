use code_heatmap::ui::colors::{get_change_frequency_color, get_lines_color, Rgb};

#[test]
fn line_buckets_have_their_colours() {
    assert_eq!(get_lines_color(0), Rgb { r: 100, g: 100, b: 100 });
    assert_eq!(get_lines_color(1), Rgb { r: 50, g: 150, b: 200 });
    assert_eq!(get_lines_color(2), Rgb { r: 100, g: 200, b: 100 });
    assert_eq!(get_lines_color(3), Rgb { r: 200, g: 200, b: 100 });
    assert_eq!(get_lines_color(4), Rgb { r: 255, g: 165, b: 0 });
    assert_eq!(get_lines_color(5), Rgb { r: 200, g: 50, b: 50 });
    assert_eq!(get_lines_color(6), Rgb { r: 200, g: 50, b: 50 });
}

#[test]
fn rate_buckets_have_their_colours() {
    assert_eq!(get_change_frequency_color(0), Rgb { r: 50, g: 100, b: 150 });
    assert_eq!(get_change_frequency_color(1), Rgb { r: 50, g: 150, b: 200 });
    assert_eq!(get_change_frequency_color(2), Rgb { r: 100, g: 200, b: 100 });
    assert_eq!(get_change_frequency_color(3), Rgb { r: 255, g: 200, b: 50 });
    assert_eq!(get_change_frequency_color(4), Rgb { r: 220, g: 50, b: 50 });
    assert_eq!(get_change_frequency_color(usize::MAX), Rgb { r: 220, g: 50, b: 50 });
}
