//! The cubes of the scene and the editor's selection state: which cube is
//! under the pointer and which one is being edited.
//!
//! Each user interface event is a method that decides the next state. The
//! editor owns the list of cubes, so the indices it hands out always name a
//! cube of the list.
use vstd::prelude::*;

verus! {

/// Abstract state of the editor.
pub struct EditorView<C> {
    pub cubes: Seq<C>,
    pub selected: Option<nat>,
    pub hovered: Option<nat>,
}

/// Both indices, where present, name a cube of the scene.
pub open spec fn valid_state<C>(v: EditorView<C>) -> bool {
    &&& (v.selected matches Some(i) ==> i < v.cubes.len())
    &&& (v.hovered matches Some(i) ==> i < v.cubes.len())
}

/// Index of an optional cube as a natural number.
pub open spec fn opt_nat(o: Option<usize>) -> Option<nat> {
    match o {
        Some(i) => Some(i as nat),
        None => None,
    }
}

/// The cubes of the scene with the editor's selection state.
pub struct SceneEditor<C> {
    cubes: Vec<C>,
    selected: Option<usize>,
    hovered: Option<usize>,
}

impl<C> View for SceneEditor<C> {
    type V = EditorView<C>;

    closed spec fn view(&self) -> EditorView<C> {
        EditorView { cubes: self.cubes@, selected: opt_nat(self.selected), hovered: opt_nat(self.hovered) }
    }
}

impl<C> SceneEditor<C> {
    #[verifier::type_invariant]
    spec fn inv(self) -> bool {
        valid_state(self@)
    }

    /// A scene holding `first` alone, nothing hovered or selected.
    pub fn new(first: C) -> (ed: SceneEditor<C>)
        ensures
            ed@ == (EditorView { cubes: seq![first], selected: None, hovered: None }),
    {
        let mut cubes: Vec<C> = Vec::new();
        cubes.push(first);
        SceneEditor { cubes, selected: None, hovered: None }
    }

    /// Number of cubes in the scene.
    pub fn cube_count(&self) -> (n: usize)
        ensures
            n == self@.cubes.len(),
    {
        self.cubes.len()
    }

    /// The cubes of the scene.
    pub fn cubes(&self) -> (c: &Vec<C>)
        ensures
            c@ == self@.cubes,
    {
        &self.cubes
    }

    /// Cube `idx`, to be changed in place; the rest of the state is left as it is.
    pub fn cube_mut(&mut self, idx: usize) -> (c: &mut C)
        requires
            idx < old(self)@.cubes.len(),
        ensures
            *c == old(self)@.cubes[idx as int],
            final(self)@ == (EditorView { cubes: old(self)@.cubes.update(idx as int, *final(c)), ..old(self)@ }),
    {
        proof {
            use_type_invariant(&*self);
        }
        &mut self.cubes[idx]
    }

    /// The cube being edited, if any.
    pub fn selected(&self) -> (s: Option<usize>)
        ensures
            opt_nat(s) == self@.selected,
            s matches Some(i) ==> i < self@.cubes.len(),
    {
        proof {
            use_type_invariant(self);
        }
        self.selected
    }

    /// The cube under the pointer, if any.
    pub fn hovered(&self) -> (h: Option<usize>)
        ensures
            opt_nat(h) == self@.hovered,
            h matches Some(i) ==> i < self@.cubes.len(),
    {
        proof {
            use_type_invariant(self);
        }
        self.hovered
    }

    /// Whether cube `idx` is drawn highlighted: it is the cube under the pointer.
    pub fn is_highlighted(&self, idx: usize) -> (b: bool)
        ensures
            b == (self@.hovered == Some(idx as nat)),
    {
        match self.hovered {
            Some(h) => h == idx,
            None => false,
        }
    }

    /// Whether the scene must be searched for the cube under the pointer:
    /// the pointer is over the picture and no cube is being edited.
    pub fn probes_pointer(&self, pointer_over: bool) -> (b: bool)
        ensures
            b == (pointer_over && self@.selected is None),
    {
        pointer_over && self.selected.is_none()
    }

    /// Pointer event of a frame. When the scene is probed (see
    /// `probes_pointer`), `found` is the cube under the pointer, which
    /// becomes the hovered cube and, on a click, the edited one; otherwise
    /// nothing is hovered.
    pub fn pointer_update(&mut self, pointer_over: bool, found: Option<usize>, clicked: bool)
        requires
            found matches Some(i) ==> i < old(self)@.cubes.len(),
        ensures
            final(self)@.cubes == old(self)@.cubes,
            (pointer_over && old(self)@.selected is None) ==> {
                &&& final(self)@.hovered == opt_nat(found)
                &&& final(self)@.selected == (if clicked {
                    opt_nat(found)
                } else {
                    None
                })
            },
            !(pointer_over && old(self)@.selected is None) ==> {
                &&& final(self)@.hovered is None
                &&& final(self)@.selected == old(self)@.selected
            },
    {
        proof {
            use_type_invariant(&*self);
        }
        if pointer_over && self.selected.is_none() {
            self.hovered = found;
            if let Some(h) = found {
                if clicked {
                    self.selected = Some(h);
                }
            }
        } else {
            self.hovered = None;
        }
    }

    /// Adds `cube` at the end of the scene.
    pub fn add_cube(&mut self, cube: C)
        ensures
            final(self)@ == (EditorView { cubes: old(self)@.cubes.push(cube), ..old(self)@ }),
    {
        proof {
            use_type_invariant(&*self);
        }
        let selected = self.selected;
        let hovered = self.hovered;
        self.selected = None;
        self.hovered = None;
        let mut cubes: Vec<C> = Vec::new();
        std::mem::swap(&mut cubes, &mut self.cubes);
        cubes.push(cube);
        self.cubes = cubes;
        self.selected = selected;
        self.hovered = hovered;
    }

    /// Editing is cancelled: nothing is selected or hovered any more.
    pub fn cancel(&mut self)
        ensures
            final(self)@ == (EditorView { cubes: old(self)@.cubes, selected: None, hovered: None }),
    {
        proof {
            use_type_invariant(&*self);
        }
        self.selected = None;
        self.hovered = None;
    }

    /// The edited cube is removed from the scene and returned, and nothing
    /// is selected or hovered any more. Without an edited cube nothing
    /// changes and `None` is returned.
    pub fn remove_selected(&mut self) -> (removed: Option<C>)
        ensures
            match old(self)@.selected {
                Some(i) => {
                    &&& removed == Some(old(self)@.cubes[i as int])
                    &&& final(self)@ == (EditorView {
                        cubes: old(self)@.cubes.remove(i as int),
                        selected: None,
                        hovered: None,
                    })
                },
                None => removed is None && final(self)@ == old(self)@,
            },
    {
        proof {
            use_type_invariant(&*self);
        }
        match self.selected {
            Some(i) => {
                self.selected = None;
                self.hovered = None;
                let mut cubes: Vec<C> = Vec::new();
                std::mem::swap(&mut cubes, &mut self.cubes);
                let c = cubes.remove(i);
                self.cubes = cubes;
                Some(c)
            },
            None => None,
        }
    }

    /// The scene is reset to `first` alone, with nothing selected or hovered.
    pub fn reset_scene(&mut self, first: C)
        ensures
            final(self)@ == (EditorView { cubes: seq![first], selected: None, hovered: None }),
    {
        proof {
            use_type_invariant(&*self);
        }
        self.selected = None;
        self.hovered = None;
        let mut cubes: Vec<C> = Vec::new();
        cubes.push(first);
        self.cubes = cubes;
    }
}

} // verus!
