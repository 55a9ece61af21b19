use catlc::lattice::{is_interior, site_count, site_offset};

#[test]
fn the_sites_of_a_grid_are_counted() {
    assert_eq!(site_count((5, 5, 5)), Some(125));
    assert_eq!(site_count((2, 3, 4)), Some(24));
    assert_eq!(site_count((1, 1, 1)), Some(1));
}

#[test]
fn a_grid_without_extent_has_no_sites() {
    assert_eq!(site_count((0, 7, 9)), Some(0));
    assert_eq!(site_count((7, 0, 9)), Some(0));
    assert_eq!(site_count((7, 9, 0)), Some(0));
    assert_eq!(site_count((usize::MAX, usize::MAX, 0)), Some(0));
    assert_eq!(site_count((0, usize::MAX, usize::MAX)), Some(0));
}

#[test]
fn a_count_that_does_not_fit_is_not_returned() {
    assert_eq!(site_count((usize::MAX, 2, 1)), None);
    assert_eq!(site_count((usize::MAX, 1, 2)), None);
    assert_eq!(site_count((2, usize::MAX, 1)), None);
    assert_eq!(site_count((usize::MAX, 1, 1)), Some(usize::MAX));
    assert_eq!(site_count((usize::MAX / 2, 2, 1)), Some(usize::MAX - 1));
}

#[test]
fn the_last_axis_runs_fastest() {
    let grid = (2, 3, 4);
    assert_eq!(site_offset(grid, 0, 0, 0), Some(0));
    assert_eq!(site_offset(grid, 0, 0, 1), Some(1));
    assert_eq!(site_offset(grid, 0, 1, 0), Some(4));
    assert_eq!(site_offset(grid, 1, 0, 0), Some(12));
    assert_eq!(site_offset(grid, 1, 2, 3), Some(23));
}

#[test]
fn every_site_of_a_grid_has_its_own_offset_below_the_count() {
    let grid = (3, 4, 5);
    let count = site_count(grid).unwrap();
    let mut seen = vec![false; count];
    for i in 0..3 {
        for j in 0..4 {
            for k in 0..5 {
                let offset = site_offset(grid, i, j, k).unwrap();
                assert!(offset < count);
                assert!(!seen[offset]);
                seen[offset] = true;
            }
        }
    }
    assert!(seen.iter().all(|&hit| hit));
}

#[test]
fn the_offset_formula_is_applied_outside_the_grid_too() {
    let grid = (2, 3, 4);
    assert_eq!(site_offset(grid, 0, 3, 0), Some(12));
    assert_eq!(site_offset(grid, 2, 0, 0), Some(24));
    assert_eq!(site_offset(grid, 0, 0, 9), Some(9));
    assert_eq!(site_offset((5, 5, 0), 3, 4, 7), Some(7));
    assert_eq!(site_offset((5, usize::MAX, 0), 3, 4, 7), Some(7));
}

#[test]
fn an_offset_that_does_not_fit_is_not_returned() {
    assert_eq!(site_offset((1, usize::MAX, 1), 2, 0, 0), None);
    assert_eq!(site_offset((1, usize::MAX, 2), 1, 0, 0), None);
    assert_eq!(site_offset((1, 1, usize::MAX), 0, 2, 0), None);
    assert_eq!(site_offset((1, 1, usize::MAX), 0, 1, 1), None);
    assert_eq!(site_offset((1, 1, 1), 0, 0, usize::MAX), Some(usize::MAX));
    assert_eq!(site_offset((1, 1, 1), 0, 1, usize::MAX), None);
    assert_eq!(site_offset((1, 1, usize::MAX), 0, 1, 0), Some(usize::MAX));
}

#[test]
fn interior_sites_have_neighbours_on_every_side() {
    let grid = (3, 4, 5);
    assert!(is_interior(grid, 1, 1, 1));
    assert!(is_interior(grid, 1, 2, 3));
    assert!(!is_interior(grid, 0, 1, 1));
    assert!(!is_interior(grid, 2, 1, 1));
    assert!(!is_interior(grid, 1, 0, 1));
    assert!(!is_interior(grid, 1, 3, 1));
    assert!(!is_interior(grid, 1, 1, 0));
    assert!(!is_interior(grid, 1, 1, 4));
    assert!(!is_interior(grid, 7, 1, 1));
}

#[test]
fn a_thin_or_empty_grid_has_no_interior() {
    assert!(!is_interior((0, 0, 0), 0, 0, 0));
    assert!(!is_interior((2, 5, 5), 1, 1, 1));
    assert!(!is_interior((5, 2, 5), 1, 1, 1));
    assert!(!is_interior((5, 5, 1), 1, 1, 0));
    assert!(!is_interior((5, 5, 5), usize::MAX, 1, 1));
    assert!(is_interior((usize::MAX, 3, 3), usize::MAX - 2, 1, 1));
}
