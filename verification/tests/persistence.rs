use sa303_core::persistence::{builtin_ids, refuse_if_builtin, stale_builtins, BuiltinIds, EntityKind};
use sa303_core::seed::{asset_id, builtin_bumper_bars, shipped_asset_ids, shipped_files, AssetFiles, Builtin};

fn names(list: &[&str]) -> Vec<String> {
    list.iter().map(|s| s.to_string()).collect()
}

/// The asset directories as the application ships them.
fn shipped_assets() -> AssetFiles {
    AssetFiles {
        speakers: names(&["sa303-isophase.json"]),
        bumpers: names(&["sa303-bumper.json"]),
        bumper_bars: names(&["sa303-bumper-bar.json"]),
        clusters: names(&["README.md"]),
    }
}

fn ids(speakers: &[&str], clusters: &[&str]) -> BuiltinIds {
    BuiltinIds {
        speakers: speakers.iter().map(|s| s.to_string()).collect(),
        clusters: clusters.iter().map(|s| s.to_string()).collect(),
        ..BuiltinIds::default()
    }
}

#[test]
fn an_update_that_drops_a_component_removes_it_and_nothing_else() {
    let previous = ids(&["sa303-isophase", "sa303-retire"], &["demo-a", "demo-b"]);
    let current = ids(&["sa303-isophase"], &["demo-a"]);

    let stale = stale_builtins(&previous, &current);
    assert_eq!(stale.len(), 2, "obtenu {stale:?}");
    assert!(stale.contains(&(EntityKind::Speaker, "sa303-retire".into())));
    assert!(stale.contains(&(EntityKind::Cluster, "demo-b".into())));
}

#[test]
fn what_the_user_created_is_never_a_candidate_for_removal() {
    let previous = ids(&[], &["demo-a"]);
    let current = BuiltinIds::default();
    let stale = stale_builtins(&previous, &current);
    assert_eq!(stale, vec![(EntityKind::Cluster, "demo-a".into())]);
}

#[test]
fn a_first_install_removes_nothing() {
    let stale = stale_builtins(&BuiltinIds::default(), &builtin_ids(&shipped_assets()));
    assert!(stale.is_empty(), "obtenu {stale:?}");
}

#[test]
fn relaunching_the_same_version_removes_nothing() {
    let current = builtin_ids(&shipped_assets());
    assert!(stale_builtins(&current, &current).is_empty());
}

#[test]
fn a_shipped_component_cannot_be_saved_or_deleted_from_the_app() {
    let assets = shipped_assets();
    let shipped = builtin_ids(&assets);
    let speaker = shipped.speakers.first().expect("une enceinte livrée");
    let err = refuse_if_builtin(&assets, EntityKind::Speaker, speaker)
        .expect_err("un composant livré doit être refusé");
    assert!(err.contains("catalogue"), "message obtenu : {err}");

    refuse_if_builtin(&assets, EntityKind::Speaker, "une-enceinte-a-moi").expect("id utilisateur");
}

#[test]
fn stale_entries_come_family_by_family_in_manifest_order() {
    let previous = BuiltinIds {
        speakers: vec!["s1".into(), "s2".into(), "s3".into()],
        bumpers: vec!["b1".into()],
        bumper_bars: vec!["bb1".into(), "bb2".into()],
        clusters: vec!["c1".into()],
    };
    let current = BuiltinIds {
        speakers: vec!["s2".into()],
        bumpers: vec!["b1".into()],
        bumper_bars: vec![],
        clusters: vec!["c2".into()],
    };
    let stale = stale_builtins(&previous, &current);
    assert_eq!(
        stale,
        vec![
            (EntityKind::Speaker, "s1".to_string()),
            (EntityKind::Speaker, "s3".to_string()),
            (EntityKind::BumperBar, "bb1".to_string()),
            (EntityKind::BumperBar, "bb2".to_string()),
            (EntityKind::Cluster, "c1".to_string()),
        ]
    );
}

#[test]
fn an_id_shipped_in_another_family_is_still_free() {
    // « sa303-bumper » est livré comme bumper, pas comme enceinte.
    assert!(refuse_if_builtin(&shipped_assets(), EntityKind::Bumper, "sa303-bumper").is_err());
    assert!(refuse_if_builtin(&shipped_assets(), EntityKind::Speaker, "sa303-bumper").is_ok());
}

#[test]
fn the_refusal_names_the_family() {
    let err = refuse_if_builtin(&shipped_assets(), EntityKind::BumperBar, "sa303-bumper-bar").unwrap_err();
    assert!(err.starts_with("Cette barre fait partie du catalogue"), "{err}");
    let err = refuse_if_builtin(&shipped_assets(), EntityKind::Bumper, "sa303-bumper").unwrap_err();
    assert!(err.starts_with("Ce bumper fait partie du catalogue"), "{err}");
}

#[test]
fn contains_looks_only_at_the_family_asked() {
    let listed = ids(&["x"], &["y"]);
    assert!(listed.contains(EntityKind::Speaker, "x"));
    assert!(!listed.contains(EntityKind::Cluster, "x"));
    assert!(listed.contains(EntityKind::Cluster, "y"));
    assert!(!listed.contains(EntityKind::Bumper, "y"));
}

#[test]
fn family_directories_match_the_asset_folders() {
    assert_eq!(EntityKind::Speaker.dir_name(), "speakers");
    assert_eq!(EntityKind::Cluster.dir_name(), "clusters");
    assert_eq!(EntityKind::Bumper.dir_name(), "bumpers");
    assert_eq!(EntityKind::BumperBar.dir_name(), "bumper-bars");
    assert_eq!(EntityKind::Cluster.this(), "Cette grappe");
}

#[test]
fn shipped_ids_are_the_asset_names() {
    let shipped = builtin_ids(&shipped_assets());
    assert_eq!(shipped.speakers, vec!["sa303-isophase".to_string()]);
    assert_eq!(shipped.bumpers, vec!["sa303-bumper".to_string()]);
    assert_eq!(shipped.bumper_bars, vec!["sa303-bumper-bar".to_string()]);
    assert_eq!(shipped_asset_ids(&shipped_assets(), EntityKind::Cluster), Vec::<String>::new());
}

#[test]
fn dropping_a_file_in_is_enough_to_ship_it() {
    let mut assets = shipped_assets();
    assets.speakers.push("sa303-cca.json".into());
    let shipped = builtin_ids(&assets);
    assert_eq!(shipped.speakers, vec!["sa303-cca".to_string(), "sa303-isophase".to_string()]);
    assert!(refuse_if_builtin(&assets, EntityKind::Speaker, "sa303-cca").is_err());
}

#[test]
fn the_listing_keeps_json_files_in_name_order() {
    let listing = names(&["b.json", "README.md", "a-b.json", ".json", "a.json", "notes.txt", "Z.json", "é.json"]);
    assert_eq!(shipped_files(&listing), names(&["Z.json", "a-b.json", "a.json", "b.json", "é.json"]));
    assert_eq!(shipped_files(&names(&["README.md"])), Vec::<String>::new());
}

#[test]
fn an_asset_id_drops_every_trailing_extension() {
    assert_eq!(asset_id(&"sa303-isophase.json".to_string()), "sa303-isophase");
    assert_eq!(asset_id(&"demo.json.json".to_string()), "demo");
    assert_eq!(asset_id(&"..json".to_string()), ".");
    assert_eq!(asset_id(&"sans-extension".to_string()), "sans-extension");
}

#[test]
fn each_shipped_bar_is_paired_with_its_asset_name() {
    let bars: Vec<Builtin<&str>> = builtin_bumper_bars(&shipped_assets(), vec!["modèle lu"]);
    assert_eq!(bars.len(), 1);
    assert_eq!(bars[0].id, "sa303-bumper-bar");
    assert_eq!(bars[0].model, "modèle lu");
}
