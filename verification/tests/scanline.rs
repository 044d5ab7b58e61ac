use modelador::scanline::{build_scanlines, get_poly_info, point_in_polygon, EdgeStep};

#[test]
fn poly_info_of_empty_polygon() {
    assert_eq!(get_poly_info(&[]), (0, 0));
}

#[test]
fn poly_info_of_single_vertex() {
    assert_eq!(get_poly_info(&[7]), (7, 0));
}

#[test]
fn poly_info_min_and_span() {
    assert_eq!(get_poly_info(&[12, 3, 40, 9]), (3, 37));
}

#[test]
fn square_scanlines() {
    let (y_min, rows) = build_scanlines(&[1, 1, 5, 5]);
    assert_eq!(y_min, 1);
    assert_eq!(rows.len(), 4);
    for (r, row) in rows.iter().enumerate() {
        assert_eq!(row, &vec![EdgeStep { edge: 1, step: r }, EdgeStep { edge: 3, step: r }]);
    }
}

#[test]
fn triangle_scanlines() {
    let (y_min, rows) = build_scanlines(&[0, 4, 2]);
    assert_eq!(y_min, 0);
    assert_eq!(
        rows,
        vec![
            vec![EdgeStep { edge: 0, step: 0 }, EdgeStep { edge: 2, step: 0 }],
            vec![EdgeStep { edge: 0, step: 1 }, EdgeStep { edge: 2, step: 1 }],
            vec![EdgeStep { edge: 0, step: 2 }, EdgeStep { edge: 1, step: 0 }],
            vec![EdgeStep { edge: 0, step: 3 }, EdgeStep { edge: 1, step: 1 }],
        ]
    );
}

#[test]
fn flat_polygon_has_no_scanline() {
    let (y_min, rows) = build_scanlines(&[6, 6, 6]);
    assert_eq!(y_min, 6);
    assert!(rows.is_empty());
}

#[test]
fn every_scanline_is_crossed_an_even_number_of_times() {
    let (_, rows) = build_scanlines(&[3, 9, 1, 7, 2, 8, 5]);
    for row in rows {
        assert_eq!(row.len() % 2, 0);
    }
}

#[test]
fn even_odd_rule() {
    assert!(point_in_polygon(&[true, false, false, false]));
    assert!(!point_in_polygon(&[true, true, false, false]));
    assert!(point_in_polygon(&[true, false, true, false, true, false]));
}

#[test]
fn too_few_vertices_contain_nothing() {
    assert!(!point_in_polygon(&[true, false, false]));
    assert!(!point_in_polygon(&[]));
}
