use asset_creator::bounds::Bounds;
use asset_creator::merge::greedy_merge;

fn covers_exactly(cells: &[(i32, i32, i32)], boxes: &[Bounds]) -> bool {
    let mut count = 0usize;
    for b in boxes {
        for z in b.2..b.5 {
            for y in b.1..b.4 {
                for x in b.0..b.3 {
                    if !cells.contains(&(x, y, z)) {
                        return false;
                    }
                    count += 1;
                }
            }
        }
    }
    let mut distinct: Vec<(i32, i32, i32)> = cells.to_vec();
    distinct.sort();
    distinct.dedup();
    count == distinct.len()
}

#[test]
fn greedy_merge_fuses_adjacent_cells_into_one_box() {
    let mut cells = Vec::new();
    for z in 0..2 {
        for y in 0..2 {
            for x in 0..2 {
                cells.push((x, y, z));
            }
        }
    }
    let merged = greedy_merge(cells);
    assert_eq!(merged.len(), 1, "8 unit cells should merge into 1 box");
    assert_eq!(merged[0], Bounds(0, 0, 0, 2, 2, 2));
}

#[test]
fn greedy_merge_keeps_disjoint_cells_separate() {
    let cells = vec![(0, 0, 0), (5, 5, 5)];
    let merged = greedy_merge(cells);
    assert_eq!(merged.len(), 2);
}

#[test]
fn greedy_merge_visits_cells_in_z_y_x_order() {
    let cells = vec![(5, 5, 5), (0, 0, 0), (0, 0, 0)];
    let merged = greedy_merge(cells);
    assert_eq!(merged, vec![Bounds(0, 0, 0, 1, 1, 1), Bounds(5, 5, 5, 6, 6, 6)]);
}

#[test]
fn greedy_merge_of_an_l_shape() {
    let cells = vec![(0, 0, 0), (1, 0, 0), (2, 0, 0), (0, 1, 0)];
    let merged = greedy_merge(cells.clone());
    assert_eq!(merged, vec![Bounds(0, 0, 0, 3, 1, 1), Bounds(0, 1, 0, 1, 2, 1)]);
    assert!(covers_exactly(&cells, &merged));
}

#[test]
fn greedy_merge_covers_a_scattered_set_exactly() {
    let mut cells = Vec::new();
    for i in 0..24i32 {
        cells.push(((i * 7) % 5, (i * 3) % 4, (i * 11) % 3));
    }
    let merged = greedy_merge(cells.clone());
    assert!(covers_exactly(&cells, &merged));
}

#[test]
fn greedy_merge_of_nothing_is_nothing() {
    assert!(greedy_merge(vec![]).is_empty());
}

#[test]
fn greedy_merge_finds_fewer_boxes_than_the_greedy_pass() {
    // Two full rows joined by one middle cell: growing from the first
    // cell gives four boxes, but three cover the cells exactly.
    let cells = vec![(0, 0, 0), (1, 0, 0), (2, 0, 0), (1, 1, 0), (0, 2, 0), (1, 2, 0), (2, 2, 0)];
    let merged = greedy_merge(cells.clone());
    assert_eq!(merged.len(), 3);
    assert!(covers_exactly(&cells, &merged));
}

#[test]
fn greedy_merge_of_a_plus_sign_needs_three_boxes() {
    let cells = vec![(1, 0, 0), (0, 1, 0), (1, 1, 0), (2, 1, 0), (1, 2, 0)];
    let merged = greedy_merge(cells.clone());
    assert_eq!(merged.len(), 3);
    assert!(covers_exactly(&cells, &merged));
}
