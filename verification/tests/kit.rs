use scene_tools::kit::{
    columns_for, is_lifted, kit_stem, rebuild_palette, rows_for, select_row, shelf_cell, Kit,
    KitProp, PaletteKit, PaletteState,
};

fn named(name: &str) -> KitProp {
    KitProp { name: name.into(), bsn: format!("{name}.bsn"), min: [0; 3], max: [0x3f80_0000; 3] }
}

#[test]
fn strips_shouted_namespace_segments() {
    assert_eq!(named("COMP_PROP_cart_city_02").short_name(), "cart_city_02");
    assert_eq!(named("P_PROP_forge_city").short_name(), "forge_city");
    assert_eq!(named("T_ENV_grass_city_01").short_name(), "grass_city_01");
    // Digits count as shouting: KB3D is a library tag like any other.
    assert_eq!(named("KB3D_LNB_Lamp_A").short_name(), "Lamp_A");
}

#[test]
fn keeps_names_that_are_all_namespace() {
    // Nothing would be left, so nothing is taken.
    assert_eq!(named("UFO").short_name(), "UFO");
    assert_eq!(named("P_PROP").short_name(), "PROP");
    assert_eq!(named("crate_city_01").short_name(), "crate_city_01");
}

#[test]
fn short_name_keeps_trailing_underscore_and_empty_heads() {
    assert_eq!(named("ABC_").short_name(), "ABC_");
    assert_eq!(named("_ABC_x").short_name(), "_ABC_x");
    assert_eq!(named("").short_name(), "");
}

#[test]
fn kit_stems_come_from_manifest_names() {
    assert_eq!(kit_stem("fantasy_props.kit.ron").as_deref(), Some("fantasy_props"));
    assert_eq!(kit_stem("fantasy_props.ron"), None);
    assert_eq!(kit_stem(".kit.ron").as_deref(), Some(""));
}

fn kits() -> Vec<PaletteKit> {
    vec![
        PaletteKit {
            name: "city".into(),
            kit: Some(Kit { props: vec![named("P_Cart"), named("P_Lamp")] }),
        },
        PaletteKit { name: "late".into(), kit: None },
        PaletteKit { name: "farm".into(), kit: Some(Kit { props: vec![named("F_cartwheel")] }) },
    ]
}

#[test]
fn palette_lists_every_loaded_prop() {
    let p = rebuild_palette(&kits(), None, "");
    let rows: Vec<(usize, usize, &str)> =
        p.rows.iter().map(|r| (r.kit, r.prop, r.label.as_str())).collect();
    assert_eq!(rows, vec![(0, 0, "city/Cart"), (0, 1, "city/Lamp"), (2, 0, "farm/cartwheel")]);
    assert_eq!(p.header, "3 props in 3 kit(s)");
}

#[test]
fn palette_search_ignores_letter_case() {
    let p = rebuild_palette(&kits(), None, "CART");
    let labels: Vec<&str> = p.rows.iter().map(|r| r.label.as_str()).collect();
    assert_eq!(labels, vec!["city/Cart", "farm/cartwheel"]);
    assert_eq!(p.header, "2/3 props");
}

#[test]
fn palette_shows_one_kit_on_request() {
    let p = rebuild_palette(&kits(), Some("farm"), "");
    assert_eq!(p.rows.len(), 1);
    assert_eq!(p.header, "1 props in 3 kit(s)");
    let none: Vec<PaletteKit> = Vec::new();
    assert_eq!(
        rebuild_palette(&none, None, "x").header,
        "no .kit.ron manifests found -- bake one with `prop_import --per-group`"
    );
}

#[test]
fn a_single_kit_needs_no_qualifier() {
    let one = vec![PaletteKit {
        name: "city".into(),
        kit: Some(Kit { props: vec![named("P_Cart")] }),
    }];
    assert_eq!(rebuild_palette(&one, None, "").rows[0].label, "Cart");
}

#[test]
fn selection_takes_full_or_short_names() {
    let k = kits();
    let p = rebuild_palette(&k, None, "");
    assert_eq!(select_row(&k, &p.rows, "Lamp"), Some(1));
    assert_eq!(select_row(&k, &p.rows, "F_cartwheel"), Some(2));
    assert_eq!(select_row(&k, &p.rows, "city/Cart"), None);
}

#[test]
fn palette_state_rebuilds_on_change_only() {
    let mut s = PaletteState { loaded: 0, dirty: false, filter: String::new() };
    assert!(!s.frame(0));
    assert!(s.frame(2));
    assert!(!s.frame(2));
    s.search("x");
    assert!(s.dirty);
    assert!(s.frame(2));
    s.search("x");
    assert!(!s.frame(2));
}

#[test]
fn the_selected_prop_is_lifted() {
    assert!(is_lifted(&named("a"), &Some(named("a"))));
    assert!(!is_lifted(&named("a"), &Some(named("b"))));
    assert!(!is_lifted(&named("a"), &None));
}

#[test]
fn shelves_are_roughly_square() {
    let columns: Vec<usize> = [0, 1, 2, 4, 5, 9, 10, 297].iter().map(|n| columns_for(*n)).collect();
    assert_eq!(columns, vec![1, 1, 2, 2, 3, 3, 4, 18]);
    assert_eq!(rows_for(297, 18), 17);
    assert_eq!(rows_for(0, 1), 1);
    assert_eq!(rows_for(9, 3), 3);
    assert_eq!(shelf_cell(19, 18), (1, 1));
}
