use scene_tools::skeleton::{context_active, Bone, Skeleton};

fn bone(name: &str, head: f32, tail: f32) -> Bone {
    Bone {
        name: name.to_string(),
        head: [0, head.to_bits(), 0],
        tail: [0, tail.to_bits(), 0],
        roll: 0,
    }
}

#[test]
fn test_skeleton_hierarchy() {
    let bones = vec![bone("root", 0.0, 1.0), bone("child", 1.0, 2.0)];
    let hierarchy = vec![None, Some(0)]; // child's parent is root
    let skeleton = Skeleton::new(bones, hierarchy);

    assert_eq!(skeleton.bones.len(), 2);
    assert_eq!(skeleton.bone_index("root"), Some(0));
    assert_eq!(skeleton.bone_index("child"), Some(1));
    assert_eq!(skeleton.hierarchy[1], Some(0));
}

#[test]
fn the_last_bone_of_a_name_is_found() {
    let bones = vec![bone("a", 0.0, 1.0), bone("b", 1.0, 2.0), bone("a", 2.0, 3.0)];
    let skeleton = Skeleton::new(bones, vec![None, Some(0), Some(1)]);
    assert_eq!(skeleton.bone_index("a"), Some(2));
    assert_eq!(skeleton.bone_index("c"), None);
    assert_eq!(skeleton.bone("a").map(|b| b.head[1]), Some(2.0f32.to_bits()));
    assert!(skeleton.bone("c").is_none());
}

#[test]
fn parent_chains_end_at_the_root() {
    let bones = vec![bone("a", 0.0, 1.0), bone("b", 1.0, 2.0), bone("c", 2.0, 3.0)];
    let skeleton = Skeleton::new(bones, vec![Some(2), Some(0), None]);
    assert_eq!(skeleton.parent_chain(1), vec![1, 0, 2]);
    assert_eq!(skeleton.parent_chain(2), vec![2]);
}

#[test]
fn typing_switches_actions_off() {
    assert!(!context_active(Some(true)));
    assert!(context_active(Some(false)));
    assert!(context_active(None));
}
