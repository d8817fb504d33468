use sa303_core::cluster::model::RiggingSupport;
use sa303_core::cluster::rigging::{bar_hole_rank, offered_groups, pick_preferred, Choice, DrillingCounts, GroupKind};

fn counts(bumper_holes: usize, bar_holes: Option<usize>, bar_mounts: usize) -> DrillingCounts {
    DrillingCounts { bumper_holes, bar_holes, bar_mounts }
}

#[test]
fn auto_offers_the_bumper_first_then_every_bar_mount() {
    let g = offered_groups(RiggingSupport::Auto, counts(6, Some(9), 4), None, &"B".to_string()).unwrap();
    assert_eq!(
        g,
        vec![
            GroupKind::Bumper,
            GroupKind::Bar { mount_index: 0 },
            GroupKind::Bar { mount_index: 1 },
            GroupKind::Bar { mount_index: 2 },
            GroupKind::Bar { mount_index: 3 },
        ]
    );
}

#[test]
fn a_requested_bar_mount_is_the_only_bar_group() {
    let g = offered_groups(RiggingSupport::Bar, counts(6, Some(9), 4), Some(2), &"B".to_string()).unwrap();
    assert_eq!(g, vec![GroupKind::Bar { mount_index: 2 }]);
    let g = offered_groups(RiggingSupport::Bumper, counts(6, Some(9), 4), Some(2), &"B".to_string()).unwrap();
    assert_eq!(g, vec![GroupKind::Bumper]);
}

#[test]
fn each_refusal_says_what_is_missing() {
    let name = "Bumper SA303".to_string();
    let e = offered_groups(RiggingSupport::Bar, counts(6, None, 0), None, &name).unwrap_err();
    assert_eq!(e.reason, "Aucune barre de déport cotée n'est compatible avec le bumper \"Bumper SA303\".");
    let e = offered_groups(RiggingSupport::Bar, counts(6, Some(9), 4), Some(7), &name).unwrap_err();
    assert_eq!(e.reason, "Le montage de barre demandé n'existe pas avec ces perçages.");
    let e = offered_groups(RiggingSupport::Auto, counts(0, None, 0), None, &name).unwrap_err();
    assert_eq!(e.reason, "Le bumper \"Bumper SA303\" ne déclare aucun trou d'accroche.");
}

#[test]
fn bar_holes_are_numbered_from_the_centre_towards_the_rear() {
    let ranks: Vec<i64> = (0..9).map(|i| bar_hole_rank(i, 9, false)).collect();
    assert_eq!(ranks, vec![-4, -3, -2, -1, 0, 1, 2, 3, 4]);
    assert_eq!(bar_hole_rank(0, 9, true), 4);
    assert_eq!(bar_hole_rank(3, 4, false), 1);
}

fn c(rank: u64, acceptable: bool) -> Choice {
    Choice { rank, acceptable }
}

#[test]
fn the_first_family_within_tolerance_wins() {
    // Le bumper tombe dans la tolérance : la barre, même meilleure, n'est pas essayée.
    let groups = vec![vec![c(5, false), c(2, true), c(3, true)], vec![c(0, true)]];
    assert_eq!(pick_preferred(&groups), Some((0, 1)));
}

#[test]
fn the_bar_takes_over_only_when_the_bumper_falls_short() {
    let groups = vec![vec![c(5, false), c(4, false)], vec![c(9, false), c(1, true)]];
    assert_eq!(pick_preferred(&groups), Some((1, 1)));
}

#[test]
fn without_any_acceptable_choice_the_overall_best_is_kept() {
    let groups = vec![vec![c(5, false)], vec![], vec![c(3, false), c(3, false)], vec![c(3, false)]];
    assert_eq!(pick_preferred(&groups), Some((2, 0)));
    assert_eq!(pick_preferred(&vec![vec![], vec![]]), None);
}
