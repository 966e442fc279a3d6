use manim_rs::ir::{JointKind, Resolution, SCHEMA_VERSION};

#[test]
fn schema_version_is_two() {
    assert_eq!(SCHEMA_VERSION, 2);
}

#[test]
fn joint_defaults_to_auto() {
    assert_eq!(JointKind::default(), JointKind::Auto);
}

#[test]
fn resolution_compares_by_fields() {
    let a = Resolution { width: 480, height: 270 };
    let b = Resolution { width: 480, height: 270 };
    assert_eq!(a, b);
    assert_ne!(a, Resolution { width: 270, height: 480 });
}
