use tte::cell::CellBuffer;
use tte::raster::{draw_line, STROKE};

fn grid(w: u16, h: u16, segment: (i32, i32, i32, i32)) -> String {
    let mut buf = CellBuffer::new(w, h);
    let (x0, y0, x1, y1) = segment;
    draw_line(&mut buf, x0, y0, x1, y1, STROKE);
    buf.to_text()
}

#[test]
fn fr1_4_horizontal_line() {
    assert_eq!(grid(5, 3, (0, 1, 4, 1)), "     \n#####\n     \n");
}

#[test]
fn fr1_4_vertical_line() {
    assert_eq!(grid(3, 3, (1, 0, 1, 2)), " # \n # \n # \n");
}

#[test]
fn fr1_4_perfect_diagonal() {
    assert_eq!(grid(3, 3, (0, 0, 2, 2)), "#  \n # \n  #\n");
}

#[test]
fn fr1_4_steep_line_has_no_gaps() {
    let mut buf = CellBuffer::new(3, 6);
    draw_line(&mut buf, 0, 0, 2, 5, STROKE);
    for (y, row) in buf.rows().iter().enumerate() {
        assert!(row.contains(STROKE), "row {y} empty: {row:?}");
    }
}

#[test]
fn fr1_4_single_point_line() {
    assert_eq!(grid(3, 3, (1, 1, 1, 1)), "   \n # \n   \n");
}

#[test]
fn fr1_4_partially_out_of_bounds_line_is_clipped() {
    let mut buf = CellBuffer::new(3, 3);
    draw_line(&mut buf, 1, 1, 10, 1, STROKE);
    assert_eq!(buf.to_text(), "   \n ##\n   \n");
}

#[test]
fn fr1_4_reversed_line_hits_same_endpoints_and_cell_count() {
    let count = |s: &str| s.matches(STROKE).count();
    let fwd = grid(5, 5, (0, 0, 4, 2));
    let rev = grid(5, 5, (4, 2, 0, 0));
    assert_eq!(count(&fwd), count(&rev));
    for g in [&fwd, &rev] {
        let rows: Vec<&str> = g.lines().collect();
        assert_eq!(rows[0].as_bytes()[0], STROKE as u8, "missing (0,0):\n{g}");
        assert_eq!(rows[2].as_bytes()[4], STROKE as u8, "missing (4,2):\n{g}");
    }
}

#[test]
fn line_cell_count_is_longer_axis_plus_one() {
    // dx = 6, dy = 2: seven cells.
    assert_eq!(grid(8, 4, (0, 0, 6, 2)).matches(STROKE).count(), 7);
    // dx = 1, dy = 4: five cells.
    assert_eq!(grid(4, 6, (2, 0, 1, 4)).matches(STROKE).count(), 5);
}

#[test]
fn shallow_line_exact_cells() {
    assert_eq!(grid(5, 2, (0, 0, 4, 1)), "##   \n  ###\n");
}

#[test]
fn line_entirely_outside_draws_nothing() {
    assert_eq!(grid(3, 2, (-5, -5, -1, -2)), "   \n   \n");
}

#[test]
fn line_uses_the_given_glyph() {
    let mut buf = CellBuffer::new(3, 1);
    draw_line(&mut buf, 0, 0, 2, 0, '*');
    assert_eq!(buf.to_text(), "***\n");
}

#[test]
fn line_cells_are_distinct_and_stepwise() {
    // A shallow line touches exactly one cell per column, so its cells are
    // distinct and each step moves one column.
    let text = grid(7, 3, (0, 0, 6, 2));
    let rows: Vec<&str> = text.lines().collect();
    for x in 0..7 {
        let in_column = rows.iter().filter(|r| r.as_bytes()[x] == STROKE as u8).count();
        assert_eq!(in_column, 1, "column {x}:\n{text}");
    }
    assert_eq!(text.matches(STROKE).count(), 7);
}
