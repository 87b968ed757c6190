use termdraw::Frac;
use termdraw::TermDraw;

fn frac(num: u32, den: u32) -> Frac {
    Frac { num, den }
}

/// A 10 by 10 buffer: cell indices 0 through 9 on both axes.
fn canvas_10x10() -> TermDraw {
    let c = TermDraw::new(10, 6);
    assert_eq!((c.width, c.height), (10, 10));
    c
}

fn written_cells(c: &TermDraw) -> Vec<(usize, usize, (u8, u8, u8), u8)> {
    let mut out = Vec::new();
    for (y, row) in c.buf.iter().enumerate() {
        for (x, cell) in row.iter().enumerate() {
            let (col, density) = *cell;
            if density > 0 {
                out.push((x, y, col, density));
            }
        }
    }
    out
}

#[test]
fn line_from_a_point_to_itself_writes_one_cell() {
    let mut c = canvas_10x10();
    c.line((frac(1, 3), frac(2, 3)), (frac(1, 3), frac(2, 3)), (255, 0, 0));
    assert_eq!(written_cells(&c), vec![(3, 6, (255, 0, 0), 1)]);
}

#[test]
fn diagonal_corner_line_writes_the_main_diagonal() {
    let mut c = canvas_10x10();
    c.line((frac(0, 1), frac(0, 1)), (frac(1, 1), frac(1, 1)), (255, 0, 0));
    let cells = written_cells(&c);
    assert_eq!(cells.len(), 10);
    for i in 0..10usize {
        assert_eq!(cells[i], (i, i, (255, 0, 0), 1));
    }
}

#[test]
fn horizontal_line_writes_one_full_row() {
    let mut c = canvas_10x10();
    c.line((frac(0, 1), frac(0, 1)), (frac(1, 1), frac(0, 1)), (0, 255, 0));
    let cells = written_cells(&c);
    assert_eq!(cells.len(), 10);
    for x in 0..10usize {
        assert_eq!(cells[x], (x, 0, (0, 255, 0), 1));
    }
}

#[test]
fn vertical_line_writes_one_full_column() {
    let mut c = canvas_10x10();
    c.line((frac(2, 9), frac(0, 1)), (frac(2, 9), frac(1, 1)), (0, 0, 255));
    let cells = written_cells(&c);
    assert_eq!(cells.len(), 10);
    for y in 0..10usize {
        assert_eq!(cells[y], (2, y, (0, 0, 255), 1));
    }
}

#[test]
fn corner_line_cell_count_is_driving_delta_plus_one() {
    // a shallow slope: dx = 9, dy = 4, so 10 distinct cells
    let mut c = canvas_10x10();
    c.line((frac(0, 1), frac(0, 1)), (frac(1, 1), frac(4, 9)), (9, 9, 9));
    assert_eq!(written_cells(&c).len(), 10);

    // a steep slope: dx = 2, dy = 9, so 10 distinct cells
    let mut c = canvas_10x10();
    c.line((frac(0, 1), frac(0, 1)), (frac(2, 9), frac(1, 1)), (9, 9, 9));
    assert_eq!(written_cells(&c).len(), 10);
}

#[test]
fn reversed_endpoints_cover_the_same_diagonal() {
    let mut c = canvas_10x10();
    c.line((frac(1, 1), frac(1, 1)), (frac(0, 1), frac(0, 1)), (255, 0, 0));
    let cells = written_cells(&c);
    assert_eq!(cells.len(), 10);
    for i in 0..10usize {
        assert_eq!(cells[i], (i, i, (255, 0, 0), 1));
    }
}

#[test]
fn anti_diagonal_line_descends_across() {
    let mut c = canvas_10x10();
    c.line((frac(1, 1), frac(0, 1)), (frac(0, 1), frac(1, 1)), (40, 50, 60));
    let cells = written_cells(&c);
    assert_eq!(cells.len(), 10);
    for i in 0..10usize {
        // row i carries the cell at column 9 - i
        assert_eq!(cells[i], (9 - i, i, (40, 50, 60), 1));
    }
}

#[test]
fn shallow_line_interpolates_the_dependent_axis() {
    let mut c = canvas_10x10();
    // from (0, 0) to (9, 4): x drives, y at offset i is 4 * i / 9
    c.line((frac(0, 1), frac(0, 1)), (frac(1, 1), frac(4, 9)), (1, 2, 3));
    let cells = written_cells(&c);
    assert_eq!(cells.len(), 10);
    for x in 0..10usize {
        let y = 4 * x / 9;
        assert!(cells.contains(&(x, y, (1, 2, 3), 1)));
    }
}

#[test]
fn tie_between_deltas_lets_y_drive() {
    let mut c = canvas_10x10();
    // from (2, 1) to (4, 3): dx == dy == 2, stepped along y
    c.line((frac(2, 9), frac(1, 9)), (frac(4, 9), frac(3, 9)), (5, 5, 5));
    let cells = written_cells(&c);
    assert_eq!(cells.len(), 3);
    assert!(cells.contains(&(2, 1, (5, 5, 5), 1)));
    assert!(cells.contains(&(3, 2, (5, 5, 5), 1)));
    assert!(cells.contains(&(4, 3, (5, 5, 5), 1)));
}

#[test]
fn crossing_lines_blend_where_they_meet() {
    let mut c = canvas_10x10();
    c.line((frac(0, 1), frac(5, 9)), (frac(1, 1), frac(5, 9)), (255, 0, 0));
    c.line((frac(5, 9), frac(0, 1)), (frac(5, 9), frac(1, 1)), (0, 0, 255));
    // the crossing cell got both writes, averaged
    assert_eq!(c.buf[5][5], ((127, 0, 127), 2));
    // elsewhere each line keeps its own color
    assert_eq!(c.buf[5][0], ((255, 0, 0), 1));
    assert_eq!(c.buf[0][5], ((0, 0, 255), 1));
}
