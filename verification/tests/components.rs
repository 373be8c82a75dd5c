//! Exercises the plain collaborator component values and the capsule
//! primitive's settings.

use ecs_core::capsule::CapsuleUvProfile;
use ecs_core::visibility::{InheritedVisibility, ViewVisibility, Visibility};

#[test]
fn visibility_toggles_cover_every_state() {
    let mut v = Visibility::default();
    assert_eq!(v, Visibility::Inherited);

    v.toggle_inherited_visible();
    assert_eq!(v, Visibility::Visible);
    v.toggle_inherited_visible();
    assert_eq!(v, Visibility::Inherited);

    v.toggle_inherited_hidden();
    assert_eq!(v, Visibility::Hidden);
    v.toggle_inherited_hidden();
    assert_eq!(v, Visibility::Inherited);

    // a state outside the toggled pair is unaffected
    let mut hidden = Visibility::Hidden;
    hidden.toggle_inherited_visible();
    assert_eq!(hidden, Visibility::Hidden);
    let mut visible = Visibility::Visible;
    visible.toggle_inherited_hidden();
    assert_eq!(visible, Visibility::Visible);
    let mut inherited = Visibility::Inherited;
    inherited.toggle_visible_hidden();
    assert_eq!(inherited, Visibility::Inherited);

    let mut v = Visibility::Visible;
    v.toggle_visible_hidden();
    assert_eq!(v, Visibility::Hidden);
    v.toggle_visible_hidden();
    assert_eq!(v, Visibility::Visible);
}

#[test]
fn computed_visibility_defaults_to_hidden_until_set() {
    let inherited = InheritedVisibility::default();
    assert!(!inherited.get());
    assert!(InheritedVisibility(true).get());

    let mut view = ViewVisibility::default();
    assert!(!view.get());
    view.set();
    assert!(view.get());
    // setting again keeps it visible: not reversible within a cycle
    view.set();
    assert!(view.get());
}

#[test]
fn computed_visibility_follows_the_parent_only_when_inheriting() {
    // an unconditionally visible node is visible under any parent
    assert!(Visibility::Visible.computed_visibility(true));
    assert!(Visibility::Visible.computed_visibility(false));
    // a hidden node is hidden under any parent
    assert!(!Visibility::Hidden.computed_visibility(true));
    assert!(!Visibility::Hidden.computed_visibility(false));
    // an inheriting node follows its parent; a root counts as having a
    // visible parent, so an inheriting root is visible
    assert!(Visibility::Inherited.computed_visibility(true));
    assert!(!Visibility::Inherited.computed_visibility(false));
}

#[test]
fn capsule_uv_profile_defaults_to_aspect() {
    assert_eq!(CapsuleUvProfile::default(), CapsuleUvProfile::Aspect);
    assert_ne!(CapsuleUvProfile::Uniform, CapsuleUvProfile::Fixed);
    let p = CapsuleUvProfile::Fixed;
    let q = p;
    assert_eq!(p, q);
}
