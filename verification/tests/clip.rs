use modelador::clip::{clip_against_plane, ClipStep};

#[test]
fn all_inside_is_unchanged() {
    let plan = clip_against_plane(&[true, true, true, true]);
    assert_eq!(plan, vec![ClipStep::Keep(0), ClipStep::Keep(1), ClipStep::Keep(2), ClipStep::Keep(3)]);
}

#[test]
fn all_outside_is_removed() {
    assert!(clip_against_plane(&[false, false, false]).is_empty());
}

#[test]
fn empty_polygon() {
    assert!(clip_against_plane(&[]).is_empty());
}

#[test]
fn two_vertices_outside() {
    let plan = clip_against_plane(&[true, false, false, true]);
    assert_eq!(
        plan,
        vec![ClipStep::Keep(0), ClipStep::Cut(0, 1), ClipStep::Cut(2, 3), ClipStep::Keep(3)]
    );
}

#[test]
fn alternating_vertices() {
    let plan = clip_against_plane(&[false, true, false, true]);
    assert_eq!(
        plan,
        vec![
            ClipStep::Cut(3, 0),
            ClipStep::Cut(0, 1),
            ClipStep::Keep(1),
            ClipStep::Cut(1, 2),
            ClipStep::Cut(2, 3),
            ClipStep::Keep(3),
        ]
    );
    let cuts = plan.iter().filter(|s| matches!(s, ClipStep::Cut(_, _))).count();
    assert_eq!(cuts % 2, 0);
}

#[test]
fn one_vertex_inside_triangle() {
    let plan = clip_against_plane(&[false, false, true]);
    assert_eq!(plan, vec![ClipStep::Cut(2, 0), ClipStep::Cut(1, 2), ClipStep::Keep(2)]);
}

#[test]
fn keeps_count_inner_vertices() {
    let inside = [true, false, true, true, false, false, true];
    let plan = clip_against_plane(&inside);
    let keeps = plan.iter().filter(|s| matches!(s, ClipStep::Keep(_))).count();
    let cuts = plan.iter().filter(|s| matches!(s, ClipStep::Cut(_, _))).count();
    assert_eq!(keeps, 4);
    assert_eq!(cuts, 4);
}

#[test]
fn inner_vertices_kept_in_order() {
    let inside = [false, true, true, false, true];
    let kept: Vec<usize> = clip_against_plane(&inside)
        .into_iter()
        .filter_map(|s| match s {
            ClipStep::Keep(i) => Some(i),
            ClipStep::Cut(_, _) => None,
        })
        .collect();
    assert_eq!(kept, vec![1, 2, 4]);
}
