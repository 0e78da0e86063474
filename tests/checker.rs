use raytracer::is_even_cell;

#[test]
fn checker_parity_of_cells() {
    assert!(is_even_cell(0, 0, 0));
    assert!(!is_even_cell(1, 0, 0));
    assert!(is_even_cell(1, 1, 0));
    assert!(!is_even_cell(-1, 0, 0));
    assert!(is_even_cell(-1, -1, 2));
    assert!(!is_even_cell(-3, 0, 0));
}

#[test]
fn checker_parity_without_overflow() {
    assert!(!is_even_cell(i32::MAX, i32::MAX, i32::MAX));
    assert!(is_even_cell(i32::MIN, i32::MIN, i32::MIN));
    assert!(is_even_cell(i32::MAX, i32::MAX, 0));
}
