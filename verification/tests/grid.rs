use minesweeper::grid::GridLayout;

#[test]
fn resize_recomputes_cell_size_and_centered_origin() {
    // A 10x10 grid: in a 500x500 container the cells are 50px with no
    // margin; in a 300x800 container they shrink to 30px and the 300px grid
    // is centered vertically at offset 250.
    let l = GridLayout::compute(500, 500, 10, 10);
    assert_eq!(l.cell_size, 50);
    assert_eq!(l.origin_x, 0);
    assert_eq!(l.origin_y, 0);
    let l = GridLayout::compute(300, 800, 10, 10);
    assert_eq!(l.cell_size, 30);
    assert_eq!(l.origin_x, 0);
    assert_eq!(l.origin_y, 250);
}

#[test]
fn hit_test_inverts_cell_center() {
    let l = GridLayout::compute(640, 480, 9, 13);
    for r in 0..9 {
        for c in 0..13 {
            let (x, y) = l.cell_center(r, c);
            assert_eq!(l.hit_test(x, y), Some((r, c)));
        }
    }
}

#[test]
fn hit_test_rejects_margin_and_outside() {
    let l = GridLayout::compute(300, 800, 10, 10);
    // Inside the container but above the grid.
    assert_eq!(l.hit_test(5, 5), None);
    // Below the grid.
    assert_eq!(l.hit_test(150, 790), None);
    // Outside the container.
    assert_eq!(l.hit_test(-1, 400), None);
    assert_eq!(l.hit_test(300, 400), None);
    // First and last cells.
    assert_eq!(l.hit_test(0, 250), Some((0, 0)));
    assert_eq!(l.hit_test(299, 549), Some((9, 9)));
}

#[test]
fn tiny_container_clamps_cell_size_to_one() {
    let l = GridLayout::compute(5, 5, 10, 10);
    assert_eq!(l.cell_size, 1);
    // The 10px grid overflows the 5px container; the origin moves left and
    // up by half the overhang.
    assert_eq!(l.origin_x, -2);
    assert_eq!(l.origin_y, -2);
}
