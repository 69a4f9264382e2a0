use tetris_progressbar::pendings::Pendings;
use tetris_progressbar::render::{has_dimensions, render, Pixel, RenderError};

const L: Pixel = Pixel::Lit;
const D: Pixel = Pixel::Dark;

fn fixture() -> Vec<Vec<i32>> {
    vec![vec![0, 1], vec![1, 0]]
}

/// The scan written out with signed arithmetic: all cells lit, then the
/// columns from the right, each cell darkening itself and lighting the cell
/// its offset points at.
fn scan(step: i64, width: i64, height: i64, orders: &Vec<Vec<i32>>) -> Vec<Vec<Pixel>> {
    let mut grid = vec![vec![L; height as usize]; width as usize];
    let first = if height == 0 {
        0
    } else {
        let reach = (step + height - 1) / height;
        if reach >= width {
            0
        } else {
            width - reach
        }
    };
    let mut x = width - 1;
    while x >= first {
        for y in 0..height {
            let offset = step - (width - x - 1) * height - orders[x as usize][y as usize] as i64;
            if offset > 0 {
                grid[x as usize][y as usize] = D;
                if x + offset < width {
                    grid[(x + offset) as usize][y as usize] = L;
                }
            }
        }
        x -= 1;
    }
    grid
}

fn count_dark(grid: &Vec<Vec<Pixel>>) -> usize {
    grid.iter().map(|column| column.iter().filter(|pixel| **pixel == D).count()).sum()
}

#[test]
fn two_by_two_step_by_step() {
    let orders = fixture();
    assert_eq!(render(0, 2, 2, &orders), Ok(vec![vec![L, L], vec![L, L]]));
    assert_eq!(render(1, 2, 2, &orders), Ok(vec![vec![L, L], vec![L, D]]));
    assert_eq!(render(2, 2, 2, &orders), Ok(vec![vec![L, L], vec![D, D]]));
    assert_eq!(render(3, 2, 2, &orders), Ok(vec![vec![D, L], vec![L, D]]));
    assert_eq!(render(4, 2, 2, &orders), Ok(vec![vec![D, D], vec![D, L]]));
    assert_eq!(render(5, 2, 2, &orders), Ok(vec![vec![D, D], vec![D, D]]));
}

#[test]
fn step_zero_is_all_lit() {
    let pendings = Pendings::new(9, 12, 7);
    assert_eq!(render(0, 12, 7, pendings.orders()), Ok(vec![vec![L; 7]; 12]));
}

#[test]
fn step_zero_is_all_lit_for_any_orders() {
    let orders = vec![vec![-5, 100, 0], vec![i32::MIN, i32::MAX, 7]];
    assert_eq!(render(0, 2, 3, &orders), Ok(vec![vec![L; 3]; 2]));
}

#[test]
fn last_step_is_all_dark() {
    let pendings = Pendings::new(9, 12, 7);
    let max_step = 12 * 7 + 12 - 1;
    assert_eq!(render(max_step, 12, 7, pendings.orders()), Ok(vec![vec![D; 7]; 12]));
    assert_ne!(render(max_step - 1, 12, 7, pendings.orders()), Ok(vec![vec![D; 7]; 12]));
}

#[test]
fn past_the_last_step_all_stays_dark() {
    let pendings = Pendings::new(4, 5, 5);
    assert_eq!(render(1000, 5, 5, pendings.orders()), Ok(vec![vec![D; 5]; 5]));
    assert_eq!(render(usize::MAX, 5, 5, pendings.orders()), Ok(vec![vec![D; 5]; 5]));
}

#[test]
fn render_twice_gives_the_same_grid() {
    let pendings = Pendings::new(77, 20, 10);
    for step in 0..(20 * 10 + 20) {
        assert_eq!(
            render(step, 20, 10, pendings.orders()),
            render(step, 20, 10, pendings.orders())
        );
    }
}

#[test]
fn render_agrees_with_the_scan() {
    for (seed, width, height) in [(1u64, 1i32, 1i32), (2, 1, 6), (3, 6, 1), (4, 5, 4), (5, 9, 13)] {
        let pendings = Pendings::new(seed, width, height);
        let last = (width * height + width - 1) as usize;
        for step in 0..=last + 2 {
            assert_eq!(
                render(step, width as usize, height as usize, pendings.orders()),
                Ok(scan(step as i64, width as i64, height as i64, pendings.orders()))
            );
        }
    }
}

#[test]
fn render_agrees_with_the_scan_on_odd_orders() {
    let orders = vec![vec![-4, 9, 0], vec![2, 2, -1], vec![7, -9, 3], vec![0, 0, 0]];
    for step in 0..40usize {
        assert_eq!(render(step, 4, 3, &orders), Ok(scan(step as i64, 4, 3, &orders)));
    }
}

#[test]
fn passed_cells_only_grow() {
    let width = 8usize;
    let height = 5usize;
    let pendings = Pendings::new(31, 8, 5);
    let orders = pendings.orders();
    let passed = |step: usize, x: usize, y: usize| {
        step as i64 - ((width - x - 1) * height) as i64 - orders[x][y] as i64 > 0
    };
    let mut earlier = 0;
    for step in 0..=(width * height + width - 1) {
        let grid = render(step, width, height, orders).unwrap();
        let mut count = 0;
        for x in 0..width {
            for y in 0..height {
                if grid[x][y] == D {
                    assert!(passed(step, x, y));
                }
                if passed(step, x, y) {
                    count += 1;
                    assert!(passed(step + 1, x, y));
                }
            }
        }
        assert!(count >= earlier);
        assert!(count_dark(&grid) <= count);
        earlier = count;
    }
    assert_eq!(earlier, width * height);
}

#[test]
fn a_highlight_runs_ahead_of_the_trail() {
    let orders = vec![vec![0], vec![0], vec![0], vec![0]];
    assert_eq!(render(3, 4, 1, &orders), Ok(vec![vec![L], vec![D], vec![L], vec![D]]));
    assert_eq!(render(4, 4, 1, &orders), Ok(vec![vec![D], vec![L], vec![D], vec![L]]));
    assert_eq!(render(5, 4, 1, &orders), Ok(vec![vec![D], vec![D], vec![L], vec![D]]));
    assert_eq!(render(6, 4, 1, &orders), Ok(vec![vec![D], vec![D], vec![D], vec![L]]));
    assert_eq!(render(7, 4, 1, &orders), Ok(vec![vec![D], vec![D], vec![D], vec![D]]));
}

#[test]
fn grid_without_cells() {
    let no_columns: Vec<Vec<i32>> = Vec::new();
    assert_eq!(render(3, 0, 0, &no_columns), Ok(Vec::new()));
    assert_eq!(render(3, 0, 5, &no_columns), Ok(Vec::new()));
    let empty_columns: Vec<Vec<i32>> = vec![Vec::new(), Vec::new()];
    assert_eq!(render(3, 2, 0, &empty_columns), Ok(vec![Vec::new(), Vec::new()]));
}

#[test]
fn wrong_width_is_a_dimension_mismatch() {
    let orders = fixture();
    assert_eq!(render(1, 3, 2, &orders), Err(RenderError::DimensionMismatch));
    assert_eq!(render(1, 1, 2, &orders), Err(RenderError::DimensionMismatch));
    assert_eq!(render(1, 0, 2, &orders), Err(RenderError::DimensionMismatch));
}

#[test]
fn wrong_height_is_a_dimension_mismatch() {
    let orders = fixture();
    assert_eq!(render(1, 2, 3, &orders), Err(RenderError::DimensionMismatch));
    assert_eq!(render(1, 2, 1, &orders), Err(RenderError::DimensionMismatch));
    let ragged = vec![vec![0, 1], vec![0]];
    assert_eq!(render(1, 2, 2, &ragged), Err(RenderError::DimensionMismatch));
}

#[test]
fn has_dimensions_looks_at_every_column() {
    assert!(has_dimensions(&fixture(), 2, 2));
    assert!(!has_dimensions(&fixture(), 2, 3));
    assert!(!has_dimensions(&fixture(), 3, 2));
    assert!(!has_dimensions(&vec![vec![0, 1], vec![0]], 2, 2));
    assert!(has_dimensions(&Vec::new(), 0, 9));
}
