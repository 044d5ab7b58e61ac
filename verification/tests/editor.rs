use modelador::editor::SceneEditor;

#[test]
fn new_scene_has_one_cube() {
    let ed = SceneEditor::new('a');
    assert_eq!(ed.cube_count(), 1);
    assert_eq!(ed.cubes(), &vec!['a']);
    assert_eq!(ed.selected(), None);
    assert_eq!(ed.hovered(), None);
}

#[test]
fn hover_then_click_selects() {
    let mut ed = SceneEditor::new('a');
    ed.add_cube('b');
    assert!(ed.probes_pointer(true));
    ed.pointer_update(true, Some(1), false);
    assert_eq!(ed.hovered(), Some(1));
    assert!(ed.is_highlighted(1));
    assert!(!ed.is_highlighted(0));
    assert_eq!(ed.selected(), None);
    ed.pointer_update(true, Some(1), true);
    assert_eq!(ed.selected(), Some(1));
}

#[test]
fn selection_stops_probing_and_clears_hover() {
    let mut ed = SceneEditor::new('a');
    ed.pointer_update(true, Some(0), true);
    assert_eq!(ed.selected(), Some(0));
    assert!(!ed.probes_pointer(true));
    ed.pointer_update(true, None, true);
    assert_eq!(ed.hovered(), None);
    assert_eq!(ed.selected(), Some(0));
}

#[test]
fn pointer_leaving_clears_hover() {
    let mut ed = SceneEditor::new('a');
    ed.pointer_update(true, Some(0), false);
    assert_eq!(ed.hovered(), Some(0));
    assert!(!ed.probes_pointer(false));
    ed.pointer_update(false, None, false);
    assert_eq!(ed.hovered(), None);
}

#[test]
fn remove_selected_cube() {
    let mut ed = SceneEditor::new('a');
    ed.add_cube('b');
    ed.add_cube('c');
    ed.pointer_update(true, Some(1), true);
    assert_eq!(ed.remove_selected(), Some('b'));
    assert_eq!(ed.cubes(), &vec!['a', 'c']);
    assert_eq!(ed.selected(), None);
    assert_eq!(ed.hovered(), None);
}

#[test]
fn remove_without_selection_does_nothing() {
    let mut ed = SceneEditor::new('a');
    assert_eq!(ed.remove_selected(), None);
    assert_eq!(ed.cube_count(), 1);
}

#[test]
fn edit_cube_in_place() {
    let mut ed = SceneEditor::new(1u32);
    ed.add_cube(2);
    *ed.cube_mut(1) += 40;
    assert_eq!(ed.cubes(), &vec![1, 42]);
}

#[test]
fn cancel_and_reset() {
    let mut ed = SceneEditor::new('a');
    ed.add_cube('b');
    ed.pointer_update(true, Some(1), true);
    ed.cancel();
    assert_eq!(ed.selected(), None);
    assert_eq!(ed.cube_count(), 2);
    ed.reset_scene('z');
    assert_eq!(ed.cubes(), &vec!['z']);
    assert_eq!(ed.selected(), None);
}
