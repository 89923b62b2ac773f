use hecras::swe2d::{
    ghost_plan, interior_cells, pad_interior, padded_index, unpad_interior, x_faces, y_faces, Bc, Face,
    GhostCopy,
};

#[test]
fn padded_index_is_row_major_with_ghost_layer() {
    assert_eq!(padded_index(3, 2, 0, 0), 0);
    assert_eq!(padded_index(3, 2, 1, 1), 6);
    assert_eq!(padded_index(3, 2, 4, 3), 19);
}

#[test]
fn padding_places_interior_and_fills_ghosts() {
    let f = vec![1.0_f64, 2.0, 3.0, 4.0, 5.0, 6.0]; // 3 x 2
    let p = pad_interior(&f, 3, 2, 0.0);
    let expected = vec![
        0.0, 0.0, 0.0, 0.0, 0.0,
        0.0, 1.0, 2.0, 3.0, 0.0,
        0.0, 4.0, 5.0, 6.0, 0.0,
        0.0, 0.0, 0.0, 0.0, 0.0,
    ];
    assert_eq!(p, expected);
}

#[test]
fn unpad_of_pad_is_the_field() {
    let f: Vec<i64> = (0..12).map(|k| k * k - 5).collect(); // 4 x 3
    let p = pad_interior(&f, 4, 3, -99);
    assert_eq!(p.len(), 30);
    assert_eq!(unpad_interior(&p, 4, 3), f);
    // a longer field keeps only its first nx * ny values
    let longer: Vec<i64> = (0..15).collect();
    let p2 = pad_interior(&longer, 4, 3, 0);
    assert_eq!(unpad_interior(&p2, 4, 3), (0..12).collect::<Vec<i64>>());
}

#[test]
fn reflective_ghost_plan_of_small_grid() {
    // nx = 2, ny = 1: padded width 4, height 3
    let plan = ghost_plan(2, 1, Bc::Reflective);
    assert_eq!(
        plan,
        vec![
            GhostCopy { dst: 4, src: 5, flip_hu: true, flip_hv: false },
            GhostCopy { dst: 7, src: 6, flip_hu: true, flip_hv: false },
            GhostCopy { dst: 1, src: 5, flip_hu: false, flip_hv: true },
            GhostCopy { dst: 9, src: 5, flip_hu: false, flip_hv: true },
            GhostCopy { dst: 2, src: 6, flip_hu: false, flip_hv: true },
            GhostCopy { dst: 10, src: 6, flip_hu: false, flip_hv: true },
        ]
    );
}

fn is_interior(nx: usize, ny: usize, p: usize) -> bool {
    let (i, j) = (p % (nx + 2), p / (nx + 2));
    (1..=nx).contains(&i) && (1..=ny).contains(&j)
}

#[test]
fn transmissive_ghost_plan_flips_nothing() {
    let (nx, ny) = (5, 4);
    let plan = ghost_plan(nx, ny, Bc::Transmissive);
    assert_eq!(plan.len(), 2 * nx + 2 * ny);
    for g in &plan {
        assert!(!g.flip_hu && !g.flip_hv);
        assert!(!is_interior(nx, ny, g.dst));
        assert!(is_interior(nx, ny, g.src));
    }
    // every non-corner ghost cell is written exactly once
    let mut written = vec![0; (nx + 2) * (ny + 2)];
    for g in &plan {
        written[g.dst] += 1;
    }
    for p in 0..written.len() {
        let (i, j) = (p % (nx + 2), p / (nx + 2));
        let corner = (i == 0 || i == nx + 1) && (j == 0 || j == ny + 1);
        let expected = if is_interior(nx, ny, p) || corner { 0 } else { 1 };
        assert_eq!(written[p], expected, "cell {}", p);
    }
}

#[test]
fn x_faces_of_small_grid() {
    let faces = x_faces(2, 1);
    assert_eq!(
        faces,
        vec![
            Face { left: 4, right: 5, update_left: false, update_right: true },
            Face { left: 5, right: 6, update_left: true, update_right: true },
            Face { left: 6, right: 7, update_left: true, update_right: false },
        ]
    );
}

#[test]
fn y_faces_of_small_grid() {
    let faces = y_faces(2, 1);
    assert_eq!(
        faces,
        vec![
            Face { left: 1, right: 5, update_left: false, update_right: true },
            Face { left: 5, right: 9, update_left: true, update_right: false },
            Face { left: 2, right: 6, update_left: false, update_right: true },
            Face { left: 6, right: 10, update_left: true, update_right: false },
        ]
    );
}

#[test]
fn every_interior_cell_takes_each_face_once() {
    let (nx, ny) = (6, 4);
    for faces in [x_faces(nx, ny), y_faces(nx, ny)] {
        let mut out = vec![0; (nx + 2) * (ny + 2)];
        let mut inn = vec![0; (nx + 2) * (ny + 2)];
        for f in &faces {
            assert_eq!(f.update_left, is_interior(nx, ny, f.left));
            assert_eq!(f.update_right, is_interior(nx, ny, f.right));
            if f.update_left {
                out[f.left] += 1;
            }
            if f.update_right {
                inn[f.right] += 1;
            }
        }
        for p in 0..out.len() {
            let e = if is_interior(nx, ny, p) { 1 } else { 0 };
            assert_eq!(out[p], e);
            assert_eq!(inn[p], e);
        }
    }
    assert_eq!(x_faces(nx, ny).len(), ny * (nx + 1));
    assert_eq!(y_faces(nx, ny).len(), nx * (ny + 1));
}

#[test]
fn interior_cells_are_visited_once_each() {
    assert_eq!(interior_cells(3, 2), vec![6, 7, 8, 11, 12, 13]);
    let (nx, ny) = (7, 5);
    let cells = interior_cells(nx, ny);
    assert_eq!(cells.len(), nx * ny);
    let mut seen = vec![0; (nx + 2) * (ny + 2)];
    for &c in &cells {
        seen[c] += 1;
    }
    for p in 0..seen.len() {
        assert_eq!(seen[p], if is_interior(nx, ny, p) { 1 } else { 0 });
    }
    // the interior of a padded field is read at these cells, in this order
    let f: Vec<u32> = (100..135).collect();
    let padded = pad_interior(&f, nx, ny, 0);
    let read: Vec<u32> = cells.iter().map(|&c| padded[c]).collect();
    assert_eq!(read, f);
    assert_eq!(unpad_interior(&padded, nx, ny), read);
}
