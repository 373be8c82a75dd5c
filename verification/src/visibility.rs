//! Plain component values of the view-visibility collaborator. The
//! propagation and culling systems that read them run over the store
//! outside this core; the values themselves and their toggling logic are
//! ordinary data and are verified here.

use vstd::prelude::*;

verus! {

/// User indication of whether an entity is visible. A root set to
/// `Inherited` counts as visible; a child set to `Inherited` follows its
/// parent.
#[derive(Clone, Copy, Debug, PartialEq, Eq, Structural)]
pub enum Visibility {
    /// Follow the parent's visibility; visible at the root.
    Inherited,
    /// Unconditionally hidden.
    Hidden,
    /// Unconditionally visible, whatever the parent shows.
    Visible,
}

impl Default for Visibility {
    /// New entities inherit visibility.
    fn default() -> (r: Self)
        ensures
            r == Visibility::Inherited,
    {
        Visibility::Inherited
    }
}

impl Visibility {
    /// Toggles between `Inherited` and `Visible`; `Hidden` is unaffected.
    pub fn toggle_inherited_visible(&mut self)
        ensures
            *final(self) == match *old(self) {
                Visibility::Inherited => Visibility::Visible,
                Visibility::Visible => Visibility::Inherited,
                Visibility::Hidden => Visibility::Hidden,
            },
    {
        *self = match *self {
            Visibility::Inherited => Visibility::Visible,
            Visibility::Visible => Visibility::Inherited,
            _ => *self,
        };
    }

    /// The per-node rule the propagation system applies down the tree:
    /// `Visible` and `Hidden` decide for themselves, `Inherited` follows
    /// the parent, and an entity without a parent counts as having a
    /// visible one, so an inheriting root is visible.
    pub fn computed_visibility(self, parent_visible: bool) -> (r: bool)
        ensures
            r == match self {
                Visibility::Visible => true,
                Visibility::Hidden => false,
                Visibility::Inherited => parent_visible,
            },
    {
        match self {
            Visibility::Visible => true,
            Visibility::Hidden => false,
            Visibility::Inherited => parent_visible,
        }
    }

    /// Toggles between `Inherited` and `Hidden`; `Visible` is unaffected.
    pub fn toggle_inherited_hidden(&mut self)
        ensures
            *final(self) == match *old(self) {
                Visibility::Inherited => Visibility::Hidden,
                Visibility::Hidden => Visibility::Inherited,
                Visibility::Visible => Visibility::Visible,
            },
    {
        *self = match *self {
            Visibility::Inherited => Visibility::Hidden,
            Visibility::Hidden => Visibility::Inherited,
            _ => *self,
        };
    }

    /// Toggles between `Visible` and `Hidden`; `Inherited` is unaffected.
    pub fn toggle_visible_hidden(&mut self)
        ensures
            *final(self) == match *old(self) {
                Visibility::Visible => Visibility::Hidden,
                Visibility::Hidden => Visibility::Visible,
                Visibility::Inherited => Visibility::Inherited,
            },
    {
        *self = match *self {
            Visibility::Visible => Visibility::Hidden,
            Visibility::Hidden => Visibility::Visible,
            _ => *self,
        };
    }
}

/// Whether an entity is visible in the hierarchy, as the propagation
/// system computed it from `Visibility` values down the tree.
#[derive(Clone, Copy, Debug, PartialEq, Eq, Structural)]
pub struct InheritedVisibility(pub bool);

impl Default for InheritedVisibility {
    /// Hidden until propagation has run.
    fn default() -> (r: Self)
        ensures
            r == (InheritedVisibility(false)),
    {
        InheritedVisibility(false)
    }
}

impl InheritedVisibility {
    /// Whether the entity is visible in the hierarchy.
    pub fn get(self) -> (r: bool)
        ensures
            r == self.0,
    {
        self.0
    }
}

/// Whether an entity is visible in any view this processing cycle; reset
/// each cycle and then set by the culling pass.
#[derive(Clone, Copy, Debug, PartialEq, Eq, Structural)]
pub struct ViewVisibility(pub bool);

impl Default for ViewVisibility {
    /// Not visible until a view marks it.
    fn default() -> (r: Self)
        ensures
            r == (ViewVisibility(false)),
    {
        ViewVisibility(false)
    }
}

impl ViewVisibility {
    /// Whether the entity is visible in any view.
    pub fn get(self) -> (r: bool)
        ensures
            r == self.0,
    {
        self.0
    }

    /// Marks the entity visible; within one cycle this is not reversible,
    /// since it records visibility in any view.
    pub fn set(&mut self)
        ensures
            final(self).0,
    {
        self.0 = true;
    }
}

} // verus!
