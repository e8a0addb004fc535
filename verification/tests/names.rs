use scene_tools::names::{basename, sanitize};

#[test]
fn sanitize_replaces_unsafe_characters() {
    assert_eq!(sanitize("a b/c-d_e"), "a_b_c-d_e");
    assert_eq!(sanitize(""), "mesh");
}

#[test]
fn basename_takes_the_last_component() {
    assert_eq!(basename("maps\\wood/oak.png"), "oak.png");
}
