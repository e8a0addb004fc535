use scene_tools::boxes::{
    dragged, find_source, pans, plan_boxes, plan_links, redraw, BoxKind, Button, GraphNode, InPin,
    OutPin, Redraw, Selected,
};
use scene_tools::browser::{
    first_expanded, open_at_startup, scan_library, spawn_dir, toggle, BrowserRow, Kind, StartupOpen,
};
use scene_tools::canvas::{
    place_grid, seed_layout, source_node, take_authored, target_node, Edge, Layout, Seeded,
    SourcePin, TargetPin,
};
use scene_tools::labels::{
    ascii, handle_path, leading_comment, list_params, one_line, pin_name, title_box,
};
use scene_tools::layers::layer;
use scene_tools::rig::{arm_preview, backs_up, plan_sliders, Bone, InputDefault};

fn list(v: &[&str]) -> Vec<String> {
    v.iter().map(|s| s.to_string()).collect()
}

#[test]
fn kinds_follow_the_extension() {
    assert_eq!(Kind::of("a.animgraph.ron"), Some(Kind::Graph));
    assert_eq!(Kind::of("a.anim.ron"), Some(Kind::Clip));
    assert_eq!(Kind::of("a.skn.ron"), Some(Kind::Skeleton));
    assert_eq!(Kind::of("a.fsm.ron"), Some(Kind::StateMachine));
    assert_eq!(Kind::of("a.ron"), None);
    assert_eq!(Kind::StateMachine.label(), "fsm");
    assert_eq!(open_at_startup(None), StartupOpen::Nothing);
    assert_eq!(open_at_startup(Some("x/a.skn.ron")), StartupOpen::Load(Kind::Skeleton));
    assert_eq!(open_at_startup(Some("a.png")), StartupOpen::Unknown);
}

fn show(rows: &[BrowserRow]) -> Vec<(usize, String, String)> {
    rows.iter()
        .map(|r| match r {
            BrowserRow::Directory { depth, label, path } => (*depth, label.clone(), path.clone()),
            BrowserRow::File { depth, label, path, .. } => (*depth, label.clone(), path.clone()),
        })
        .collect()
}

#[test]
fn the_library_is_a_sorted_tree() {
    let lib = scan_library(&list(&[
        "z.fsm.ron", "b\\y.anim.ron", "a/c/x.skn.ron", "readme.txt", "a/w.animgraph.ron",
    ]));
    let paths: Vec<&str> = lib.entries.iter().map(|e| e.path.as_str()).collect();
    assert_eq!(paths, vec!["a/c/x.skn.ron", "a/w.animgraph.ron", "b/y.anim.ron", "z.fsm.ron"]);
    let mut expanded = first_expanded(&lib.root);
    assert_eq!(expanded, list(&["a", "b"]));
    let mut rows = Vec::new();
    spawn_dir(&lib.root, "", 0, &expanded, &mut rows);
    let want = |d: usize, l: &str, p: &str| (d, l.to_string(), p.to_string());
    assert_eq!(
        show(&rows),
        vec![
            want(0, "- a/", "a"),
            want(1, "+ c/", "a/c"),
            want(1, "  w.animgraph.ron   [graph]", "a/w.animgraph.ron"),
            want(0, "- b/", "b"),
            want(1, "  y.anim.ron   [clip]", "b/y.anim.ron"),
            want(0, "  z.fsm.ron   [fsm]", "z.fsm.ron"),
        ]
    );
    toggle(&mut expanded, "a");
    toggle(&mut expanded, "b");
    toggle(&mut expanded, "b");
    let mut closed = Vec::new();
    spawn_dir(&lib.root, "", 0, &expanded, &mut closed);
    assert_eq!(show(&closed)[0], want(0, "+ a/", "a"));
    assert_eq!(show(&closed)[1], want(0, "- b/", "b"));
}

#[test]
fn pin_names_are_unwrapped() {
    assert_eq!(pin_name("Passthrough(\"speed\")"), "speed");
    assert_eq!(pin_name("P(\"a\"b\")"), "a\"b");
    assert_eq!(pin_name("Time"), "Time");
    assert_eq!(pin_name("odd\""), "odd\"");
    assert_eq!(ascii("∑ Blend"), "Blend");
    assert_eq!(title_box("", "⌚ Speed"), "Speed");
    assert_eq!(title_box("run", "⌚ Speed"), "run  (Speed)");
}

#[test]
fn parameters_are_short_lines() {
    assert_eq!(one_line("a\nb"), "a b");
    assert_eq!(one_line(&"x".repeat(72)), "x".repeat(72));
    assert_eq!(one_line(&"x".repeat(73)), format!("{}...", "x".repeat(69)));
    assert_eq!(
        list_params("n", "∑ Sum", &vec![("k".to_string(), "1".to_string())]),
        ["n  [Sum]", "  k: 1"]
    );
    assert_eq!(handle_path(None), "<unsaved>");
    assert_eq!(handle_path(Some("a.ron")), "a.ron");
}

#[test]
fn headers_survive_a_save() {
    let file = "// design\n\n  // more\n(nodes: [])\n// tail\n";
    assert_eq!(leading_comment(file), "// design\n\n  // more\n");
    let saved = format!("{}(x)", leading_comment(file));
    assert_eq!(leading_comment(&saved), leading_comment(file));
    assert_eq!(leading_comment("\n\n(x)"), "");
    assert_eq!(leading_comment(""), "");
    assert_eq!(leading_comment("// a\r\n(x)"), "// a\n");
    let carried = format!("{}(y)", leading_comment("// a\r\n\r\n// b\r\n(x)"));
    assert_eq!(carried, "// a\n\n// b\n(y)");
    assert_eq!(leading_comment(&carried), "// a\n\n// b\n");
    assert_eq!(leading_comment(&leading_comment("// a\r\r\n(x)")), "// a\n");
}

#[test]
fn columns_are_one_past_the_deepest_predecessor() {
    let at = vec![0, 1, 2, 3];
    assert_eq!(layer(&vec![(0, 1), (1, 2), (0, 2), (2, 3), (9, 3)], &at), vec![0, 1, 2, 3]);
    assert_eq!(layer(&vec![(3, 2), (2, 1), (1, 0)], &at), vec![3, 2, 1, 0]);
    assert_eq!(layer(&Vec::new(), &at), vec![0, 0, 0, 0]);
    // A cycle stops improving once every node was swept.
    assert_eq!(layer(&vec![(0, 0)], &vec![0]), vec![1]);
    assert_eq!(layer(&vec![(0, 1), (1, 0)], &vec![0, 1]), vec![3, 4]);
}

fn edge(from: usize, to: usize) -> Edge {
    Edge {
        target: TargetPin::NodeData(to, "in".to_string()),
        source: SourcePin::NodeData(from, "out".to_string()),
    }
}

#[test]
fn layouts_are_authored_or_layered() {
    let keys = list(&["b", "a", "c"]);
    let layout = |positions: &[(&str, (u32, u32))]| Layout {
        positions: positions.iter().map(|(k, p)| (k.to_string(), *p)).collect(),
        inputs: (7, 8),
        outputs: (9, 0x4000_0000),
    };
    let authored = layout(&[("b", (0, 0)), ("c", (0, 0x3f80_0000))]);
    match seed_layout(&keys, &authored, &vec![edge(0, 1)]) {
        Seeded::Authored(a) => {
            assert_eq!(a.nodes, vec![(0, 0), (0, 0), (0, 0x3f80_0000)]);
            assert_eq!((a.inputs, a.outputs), ((7, 8), (9, 0x4000_0000)));
        }
        Seeded::Layered(_) => unreachable!(),
    }
    let stale = layout(&[("gone", (0x3f80_0000, 0))]);
    assert_eq!(take_authored(&keys, &stale).nodes, vec![(0, 0); 3]);
    assert!(matches!(seed_layout(&keys, &stale, &vec![]), Seeded::Authored(_)));
    let edges = vec![
        edge(0, 2),
        Edge { target: TargetPin::OutputTime, source: SourcePin::NodeTime(2) },
    ];
    match seed_layout(&keys, &layout(&[("a", (0, 0x8000_0000))]), &edges) {
        Seeded::Layered(g) => {
            assert_eq!(g.cells, vec![(0, 1), (0, 0), (1, 0)]);
            assert_eq!(g.outputs, 2);
            let p = place_grid(&g);
            assert_eq!(p.nodes, vec![(0, 130), (0, 0), (290, 0)]);
            assert_eq!((p.inputs, p.outputs), ((-290, 0), (580, 0)));
        }
        Seeded::Authored(_) => unreachable!(),
    }
    assert_eq!(target_node(&TargetPin::OutputTime), None);
    assert_eq!(target_node(&TargetPin::NodeTime(4, String::new())), Some(4));
    assert_eq!(source_node(&SourcePin::InputData(String::new())), None);
    assert_eq!(source_node(&SourcePin::NodeTime(3)), Some(3));
}

fn node(key: &str, name: &str) -> GraphNode {
    GraphNode {
        key: key.to_string(),
        name: name.to_string(),
        display: "∑ Blend".to_string(),
        inputs: vec![InPin::Time("t0".to_string()), InPin::Data("in".to_string())],
        outputs: vec![OutPin::Data("out".to_string()), OutPin::Time],
    }
}

#[test]
fn boxes_show_pins_and_links_join_them() {
    let ins = vec![InPin::Data("P(\"speed\")".to_string()), InPin::Time("P(\"t\")".to_string())];
    let outs = vec![OutPin::Time, OutPin::Data("pose".to_string())];
    let boxes = plan_boxes(&ins, &outs, &vec![node("b", "second"), node("a", "")]);
    let titles: Vec<&str> = boxes.iter().map(|b| b.title.as_str()).collect();
    assert_eq!(titles, vec!["inputs", "outputs", "Blend", "second  (Blend)"]);
    assert_eq!(boxes[0].output_labels(), list(&["speed", "t t"]));
    assert_eq!(boxes[1].input_labels(), list(&["t", "pose"]));
    assert_eq!(boxes[2].input_labels(), list(&["t t0", "in"]));
    assert_eq!(boxes[2].kind, BoxKind::Node(1));
    assert!(boxes[0].is_rail() && !boxes[2].is_rail());
    assert_eq!(boxes[2].height(), 62);
    assert_eq!(boxes[2].pin_y_twice(1), 99);
    assert_eq!(find_source(&boxes, &SourcePin::NodeTime(0)), Some((3, 1)));
    let edges = vec![
        Edge {
            target: TargetPin::NodeData(1, "in".to_string()),
            source: SourcePin::InputData("P(\"speed\")".to_string()),
        },
        Edge {
            target: TargetPin::NodeData(1, "gone".to_string()),
            source: SourcePin::NodeTime(0),
        },
        Edge { target: TargetPin::OutputTime, source: SourcePin::NodeTime(1) },
    ];
    let links: Vec<((usize, usize), (usize, usize), bool)> =
        plan_links(&boxes, &edges).iter().map(|l| (l.from, l.to, l.time)).collect();
    assert_eq!(links, vec![((0, 0), (2, 1), false), ((2, 1), (1, 0), true)]);
}

#[test]
fn pointers_drag_pan_and_select() {
    assert_eq!(dragged(BoxKind::Inputs, Button::Primary), Some(BoxKind::Inputs));
    assert_eq!(dragged(BoxKind::Inputs, Button::Middle), None);
    assert!(pans(Button::Secondary) && !pans(Button::Primary));
    let mut s = Selected { node: None, dirty: false };
    s.click(BoxKind::Outputs);
    assert!(!s.dirty);
    s.click(BoxKind::Node(4));
    assert!(s.dirty && s.highlights(4) && !s.highlights(3));
    s.select_named(&vec![node("a", "x"), node("b", "y"), node("c", "y")], "y");
    assert_eq!(s.node, Some(1));
    s.select_named(&Vec::new(), "y");
    assert_eq!(s.node, None);
    assert_eq!(redraw(false, true, true), Redraw::Idle);
    assert_eq!(redraw(true, false, true), Redraw::Forget);
    assert_eq!(redraw(true, true, false), Redraw::Wait);
    assert_eq!(redraw(true, true, true), Redraw::Draw);
}

fn bone(id: usize, name: Option<&str>, children: Vec<Bone>) -> Bone {
    Bone { id, name: name.map(|n| n.to_string()), children }
}

#[test]
fn the_armature_drives_named_bones() {
    let rig = vec![
        bone(1, Some("Camera"), vec![]),
        bone(
            2,
            Some("Armature"),
            vec![
                bone(3, Some("hips"), vec![bone(4, Some("leg"), vec![])]),
                bone(5, None, vec![bone(6, Some("lost"), vec![])]),
            ],
        ),
    ];
    let a = arm_preview(&rig).unwrap();
    assert_eq!(a.armature, 2);
    let got: Vec<(usize, Vec<String>)> = a.bones.iter().map(|t| (t.id, t.path.clone())).collect();
    assert_eq!(
        got,
        vec![(3, list(&["Armature", "hips"])), (4, list(&["Armature", "hips", "leg"]))]
    );
    assert!(arm_preview(&vec![bone(2, Some("Armature"), vec![])]).is_none());
    assert!(arm_preview(&Vec::new()).is_none());
}

#[test]
fn sliders_are_sorted_numbers() {
    let d = |pin: &str, v: Option<&str>| InputDefault {
        pin: format!("P(\"{pin}\")"),
        value: v.map(|x| x.to_string()),
    };
    let s = plan_sliders(&vec![d("speed", Some("1.50")), d("pose", None), d("blend", Some("0.00"))]);
    let got: Vec<(&str, &str, usize)> =
        s.iter().map(|x| (x.name.as_str(), x.readout.as_str(), x.index)).collect();
    assert_eq!(got, vec![("blend", "blend  0.00", 2), ("speed", "speed  1.50", 0)]);
    assert!(backs_up(true, false) && !backs_up(true, true) && !backs_up(false, false));
}
