use fsearch::cellart::{cell_symbol, fit_cells, unpack_color};
use fsearch::theme::Color;

#[test]
fn fit_preserves_aspect_within_area() {
    // square image in a wide area: height-bound
    assert_eq!(fit_cells(100, 100, 120, 20), (40, 20));
    // wide image in a narrow area: width-bound
    assert_eq!(fit_cells(400, 100, 40, 40), (40, 5));
    // degenerate inputs stay sane
    assert_eq!(fit_cells(0, 100, 40, 40), (1, 1));
}

#[test]
fn fitted_images_stay_inside_the_area() {
    for (w, h, cols, rows) in [(1u32, 1u32, 1u16, 1u16), (3, 1000, 7, 9), (4000, 3, 80, 24)] {
        let (c, r) = fit_cells(w, h, cols, rows);
        assert!(c >= 1 && c <= cols);
        assert!(r >= 1 && r <= rows);
    }
}

#[test]
fn fitted_images_fill_a_side_of_the_area() {
    for (w, h) in [(1u32, 1u32), (3, 1000), (4000, 3), (1920, 1080), (7, 13), (u32::MAX, 1)] {
        for (cols, rows) in [(1u16, 1u16), (7, 9), (80, 24), (65535, 1), (3, 65535)] {
            let (c, r) = fit_cells(w, h, cols, rows);
            assert!(c == cols || r == rows, "{w}x{h} in {cols}x{rows}: {c}x{r}");
        }
    }
    assert_eq!(fit_cells(1920, 1080, 80, 24), (80, 23));
}

#[test]
fn cells_have_plain_symbols_and_true_colors() {
    assert_eq!(unpack_color(0x00c8_1e1e), Color::Rgb(200, 30, 30));
    assert_eq!(unpack_color(-1), Color::Rgb(255, 255, 255));
    assert_eq!(cell_symbol(Some('█')), '█');
    assert_eq!(cell_symbol(Some('\u{1b}')), ' ');
    assert_eq!(cell_symbol(None), ' ');
}
