use tapa_core::layout::{
    centered_origin, field_top, fit_cell, initial_client_size, Frame, min_client_h, min_client_w, slider_top, FOOTER, HEADER, HELP_TOP,
    MARGIN, MAX_CELL, MIN_CELL, PANEL_GAP, PANEL_MIN_H, PANEL_W, SLIDER_H,
};

#[test]
fn the_default_window_shows_38_pixel_cells() {
    // the client size the window opens with for a 20x20 board
    let (w, h) = (2 * MARGIN + 38 * 20 + PANEL_GAP + PANEL_W, HEADER + 38 * 20 + FOOTER);
    assert_eq!(fit_cell(20, 20, w, h), 38);
}

#[test]
fn a_bigger_window_gets_bigger_cells() {
    let small = fit_cell(20, 20, 1146, 940);
    let big = fit_cell(20, 20, 2000, 1400);
    assert!(big > small, "{big} should be bigger than {small}");
}

#[test]
fn cells_never_shrink_below_the_minimum_or_grow_past_the_maximum() {
    assert_eq!(fit_cell(60, 60, 400, 400), MIN_CELL);
    assert_eq!(fit_cell(3, 3, 4000, 3000), MAX_CELL);
}

#[test]
fn the_board_always_fits_beside_the_control_column() {
    for size in [3usize, 8, 20, 40, 60] {
        for (w, h) in [(419, 680), (800, 700), (1146, 940), (2000, 1400), (900, 1600)] {
            let cell = fit_cell(size, size, w, h);
            let panel_x = w.max(min_client_w(size)) - MARGIN - PANEL_W;
            assert!(
                cell * size as i32 <= panel_x - PANEL_GAP - MARGIN,
                "{size}x{size} in {w}x{h}: cells of {cell} do not fit"
            );
            assert!(
                HEADER + cell * size as i32 + FOOTER <= h.max(min_client_h(size)),
                "{size}x{size} in {w}x{h}: the board does not fit vertically"
            );
        }
    }
}

#[test]
fn the_minimum_window_fits_the_column_and_a_three_cell_board() {
    assert_eq!(min_client_w(3), 2 * MARGIN + 3 * MIN_CELL + PANEL_GAP + PANEL_W);
    assert_eq!(min_client_h(3), PANEL_MIN_H);
    assert_eq!(min_client_h(60), HEADER + 60 * MIN_CELL + FOOTER);
    assert!(min_client_h(60) > PANEL_MIN_H);
}

#[test]
fn the_control_column_fits_the_window() {
    assert!(
        HELP_TOP + 56 + 8 <= PANEL_MIN_H,
        "help line ends at {} but the window is only {PANEL_MIN_H} tall",
        HELP_TOP + 56
    );
}

#[test]
fn the_slider_has_its_own_row_between_the_size_and_density_fields() {
    let size_row = field_top(0);
    let slider = slider_top();
    let density_row = field_top(1);
    assert!(slider >= size_row + 24, "the slider overlaps the size field");
    assert!(
        slider + SLIDER_H <= density_row,
        "the slider overlaps the density field"
    );
}

#[test]
fn the_slider_covers_the_cell_sizes_the_layout_allows() {
    assert_eq!(MIN_CELL, 11);
    assert!(MAX_CELL > MIN_CELL);
}

#[test]
fn a_window_exactly_as_wide_as_needed_gives_exact_cells() {
    // 10 columns at 50 pixels need 500 pixels of board room
    let w = 2 * MARGIN + 50 * 10 + PANEL_GAP + PANEL_W;
    let h = HEADER + 50 * 10 + FOOTER;
    assert_eq!(fit_cell(10, 10, w, h), 50);
    assert_eq!(fit_cell(10, 10, w - 1, h), 49);
}

#[test]
fn a_new_window_fills_most_of_the_work_area() {
    // caption 23, frame 4 on each side, plus 8
    assert_eq!(initial_client_size(20, 20, 1920, 1040, 39), (1106, 900));
    assert_eq!(initial_client_size(20, 20, 800, 600, 39), (706, 680));
    // cells never grow past the opening maximum
    assert_eq!(initial_client_size(20, 20, 4000, 4000, 39), (1146, 940));
    // nor shrink below the smallest window
    assert_eq!(initial_client_size(20, 20, 100, 100, 39), (606, 680));
}

#[test]
fn windows_open_centred_in_the_work_area() {
    assert_eq!(centered_origin(0, 0, 1920, 1040, 1106, 900), (407, 70));
    assert_eq!(centered_origin(10, 20, 800, 600, 1000, 700), (10, 20));
}

#[test]
fn a_frame_finds_the_cell_under_the_pointer() {
    let mut f = Frame::new(20, 20, 1106, 900);
    assert_eq!(f.cell, 36);
    assert_eq!(f.panel_x, 762);
    assert_eq!(f.text_right(), 744);
    assert_eq!(f.cell_at(24, 62, 20, 20), Some((0, 0)));
    assert_eq!(f.cell_at(24 + 36 * 3 + 5, 62 + 36 * 2, 20, 20), Some((3, 2)));
    assert_eq!(f.cell_at(23, 62, 20, 20), None);
    assert_eq!(f.cell_at(24 + 36 * 20, 62, 20, 20), None);
    assert_eq!(f.cell_rect(3, 2), (132, 134, 168, 170));
    assert_eq!(f.grid_rect(), (22, 60, 746, 784));
    // refitting to the same size changes nothing
    assert!(!f.fit(1106, 900));
    assert!(f.fit(2000, 1200));
    assert_eq!(f.cell, 51);
    // a tiny window is raised to the smallest one
    assert!(f.fit(100, 100));
    assert_eq!((f.client_w, f.client_h, f.cell), (606, 680, 11));
    f.set_grid(10, 10);
    assert!(f.fit(1106, 900));
    assert_eq!(f.cell, 72);
}
