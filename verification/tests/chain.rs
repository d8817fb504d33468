use sa303_core::bumper::{BumperBarCompatibility, BumperBarModel, BumperCompatibility, BumperModel};
use sa303_core::cluster::chain::{
    bumper_bar_for, first_undrilled_joint, reference_index, resolve_chain, undrilled_joint,
    validate_bumper_compatible,
};
use sa303_core::cluster::joint::{free_body, free_body_count, joint_failure, loaded_position};
use sa303_core::cluster::model::{ClusterRefs, Compartment, RiggingRequest, RiggingSupport};
use sa303_core::speaker::{is_odd_whole_degrees, BelowCompatibility, CrownRow, SpeakerModel, WaveguideFront};

fn below(id: &str, flown: bool, stacked: bool) -> BelowCompatibility {
    BelowCompatibility { speaker_model_id: id.into(), flown, stacked }
}

fn speaker(id: &str, name: &str, compatible_below: Vec<BelowCompatibility>) -> SpeakerModel {
    SpeakerModel { id: id.into(), name: name.into(), compatible_below }
}

fn catalogue() -> Vec<SpeakerModel> {
    vec![
        speaker("sa303", "SA303", vec![below("sa303", true, true), below("sa303-heavy", true, false)]),
        speaker("sa303-heavy", "SA303-HEAVY", vec![below("sa303-heavy", true, true)]),
    ]
}

fn cluster(ids: &[&str], joints: usize, compartment: Compartment) -> ClusterRefs {
    ClusterRefs {
        id: "c".into(),
        name: "Grappe".into(),
        speaker_model_ids: ids.iter().map(|s| s.to_string()).collect(),
        joint_count: joints,
        compartment,
        bumper_model_id: "sa303-bumper".into(),
    }
}

#[test]
fn a_declared_chain_resolves_to_catalogue_indices() {
    let models = catalogue();
    let c = cluster(&["sa303", "sa303", "sa303-heavy"], 2, Compartment::Flown);
    let r = resolve_chain(&models, &c).expect("chaîne déclarée compatible");
    assert_eq!(r.models, vec![0, 0, 1]);
    assert_eq!(r.below, vec![0, 1]);
}

#[test]
fn a_joint_declared_for_flying_only_is_refused_in_a_stack() {
    let models = catalogue();
    let c = cluster(&["sa303", "sa303-heavy"], 1, Compartment::Stacked);
    let e = resolve_chain(&models, &c).unwrap_err();
    assert_eq!(
        e.reason,
        "\"SA303-HEAVY\" n'est pas déclarée accrochable sous \"SA303\" en stack. Déclare cette compatibilité dans Équipement et enceinte, ou change d'enceinte à cette position."
    );
}

#[test]
fn a_joint_declared_in_one_direction_only_is_refused_the_other_way() {
    let models = catalogue();
    let c = cluster(&["sa303-heavy", "sa303"], 1, Compartment::Flown);
    let e = resolve_chain(&models, &c).unwrap_err();
    assert!(e.reason.contains("accrochable"), "obtenu : {}", e.reason);
    assert!(e.reason.contains("en vol"));
}

#[test]
fn an_unknown_reference_is_reported_by_name() {
    let models = catalogue();
    let c = cluster(&["sa303", "sa303-inconnue", "autre"], 2, Compartment::Flown);
    let e = resolve_chain(&models, &c).unwrap_err();
    assert_eq!(e.reason, "Enceinte \"sa303-inconnue\" introuvable.");
}

#[test]
fn the_speaker_count_must_match_the_joint_count() {
    let models = catalogue();
    let c = cluster(&["sa303", "sa303"], 12, Compartment::Flown);
    let e = resolve_chain(&models, &c).unwrap_err();
    assert_eq!(
        e.reason,
        "Grappe incohérente : 2 enceinte(s) déclarée(s) pour 12 jonction(s), il en faut exactement 13."
    );
}

#[test]
fn the_count_is_checked_before_the_references() {
    let models = catalogue();
    let c = cluster(&["inconnue"], 1, Compartment::Flown);
    let e = resolve_chain(&models, &c).unwrap_err();
    assert!(e.reason.starts_with("Grappe incohérente"), "{}", e.reason);
}

#[test]
fn the_first_declaration_for_a_pair_is_the_one_that_counts() {
    let models = vec![speaker("a", "A", vec![below("a", false, true), below("a", true, true)])];
    let c = cluster(&["a", "a"], 1, Compartment::Flown);
    assert!(resolve_chain(&models, &c).is_err());
    assert_eq!(models[0].below("a").map(|b| b.flown), Some(false));
}

#[test]
fn mutually_declared_models_can_alternate() {
    let models = vec![
        speaker("a", "A", vec![below("b", true, true)]),
        speaker("b", "B", vec![below("a", true, true)]),
    ];
    let c = cluster(&["a", "b", "a", "b"], 3, Compartment::Stacked);
    let r = resolve_chain(&models, &c).expect("les deux sens sont déclarés");
    assert_eq!(r.models, vec![0, 1, 0, 1]);
}

fn bumper(id: &str, compat: Vec<BumperCompatibility>) -> BumperModel {
    BumperModel { id: id.into(), name: "Bumper SA303".into(), compatible_speakers: compat }
}

#[test]
fn a_bumper_must_be_declared_for_the_speaker_and_compartment() {
    let models = catalogue();
    let b = bumper(
        "sa303-bumper",
        vec![BumperCompatibility { speaker_model_id: "sa303".into(), flown: true, stacked: false }],
    );
    assert!(validate_bumper_compatible(&b, &models[0], Compartment::Flown).is_ok());
    let e = validate_bumper_compatible(&b, &models[0], Compartment::Stacked).unwrap_err();
    assert_eq!(
        e.reason,
        "Le bumper \"Bumper SA303\" n'est pas déclaré compatible avec l'enceinte \"SA303\" en stack. Choisis un bumper compatible ou mets à jour sa compatibilité dans Équipement et enceinte."
    );
    assert!(validate_bumper_compatible(&b, &models[1], Compartment::Flown).is_err());
}

#[test]
fn bar_is_derived_from_the_active_bumper() {
    let bars = vec![
        BumperBarModel {
            id: "autre-barre".into(),
            name: "Autre barre".into(),
            compatible_bumpers: vec![BumperBarCompatibility { bumper_model_id: "un-autre-bumper".into() }],
        },
        BumperBarModel {
            id: "sa303-bumper-bar".into(),
            name: "Barre".into(),
            compatible_bumpers: vec![
                BumperBarCompatibility { bumper_model_id: "x".into() },
                BumperBarCompatibility { bumper_model_id: "sa303-bumper".into() },
            ],
        },
    ];
    let b = bumper("sa303-bumper", vec![]);
    assert_eq!(bumper_bar_for(&bars, &b).map(|bar| bar.id.as_str()), Some("sa303-bumper-bar"));
    let lone = bumper("seul", vec![]);
    assert!(bumper_bar_for(&bars, &lone).is_none());
}

#[test]
fn the_reference_speaker_is_the_top_one_flown_and_the_bottom_one_stacked() {
    assert_eq!(reference_index(Compartment::Flown, 5), 0);
    assert_eq!(reference_index(Compartment::Stacked, 5), 4);
}

#[test]
fn the_free_body_hangs_below_a_flown_joint_and_rests_above_a_stacked_one() {
    assert_eq!(free_body(Compartment::Flown, 1, 4), (2, 3));
    assert_eq!(free_body_count(Compartment::Flown, 1, 4), 2);
    assert_eq!(loaded_position(Compartment::Flown, 1), 1);
    assert_eq!(free_body(Compartment::Stacked, 1, 4), (0, 1));
    assert_eq!(free_body_count(Compartment::Stacked, 1, 4), 2);
    assert_eq!(loaded_position(Compartment::Stacked, 1), 2);
}

#[test]
fn odd_splays_use_the_inner_crown() {
    assert_eq!(CrownRow::of_whole_degrees(1), CrownRow::Int);
    assert_eq!(CrownRow::of_whole_degrees(-3), CrownRow::Int);
    assert_eq!(CrownRow::of_whole_degrees(0), CrownRow::Ext);
    assert_eq!(CrownRow::of_whole_degrees(20), CrownRow::Ext);
    assert!(!is_odd_whole_degrees(-4));
}

#[test]
fn defaults_match_the_documented_ones() {
    assert_eq!(WaveguideFront::default(), WaveguideFront::Isophase);
    let r = RiggingRequest::default();
    assert_eq!(r.support, RiggingSupport::Auto);
    assert_eq!(r.points, 1);
    assert_eq!(r.bar_mount_index, None);
    assert_eq!(RiggingSupport::default(), RiggingSupport::Auto);
}

#[test]
fn a_splay_without_a_hole_on_the_upper_model_names_its_joint() {
    let grids = vec![vec![0, 10, 20, 30], vec![0, 10, 20]];
    assert_eq!(first_undrilled_joint(&grids, &vec![30, 20]), None);
    assert_eq!(first_undrilled_joint(&grids, &vec![30, 30]), Some(1));
    assert_eq!(first_undrilled_joint(&grids, &vec![25, 30]), Some(0));
    let e = undrilled_joint(1, "3", "SA303", "0°, 1°, 2°");
    assert_eq!(
        joint_failure(&e).reason,
        "Jonction 2 : aucun trou à 3° sur \"SA303\". Angles percés : 0°, 1°, 2°."
    );
}

#[test]
fn a_cluster_without_joints_has_nothing_to_drill() {
    assert_eq!(first_undrilled_joint(&vec![], &vec![]), None);
}
