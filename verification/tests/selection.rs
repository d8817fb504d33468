use sa303_core::cluster::worst_cases_selector::{
    criterion_winner, select_block_a, select_block_b, CaseKeys, EnvelopeKeys,
};
use sa303_core::cluster::aggregate::{drilled_splay_keys, uncovered_splays};

/// A synthetic joint: only the fields the selection reads.
struct Fake {
    mag_o: f64,
    mag_p: f64,
    hinge_reversed: bool,
    traction: bool,
    splay_deg: f64,
    inclination_deg: f64,
}

fn fake_joint(
    mag_o: f64,
    mag_p: f64,
    hinge_reversed: bool,
    traction: bool,
    splay_deg: f64,
    inclination_deg: f64,
) -> Fake {
    Fake { mag_o, mag_p, hinge_reversed, traction, splay_deg, inclination_deg }
}

/// Dense rank of each value in the total order of `f64`.
fn ranks(values: &[f64]) -> Vec<u64> {
    let mut sorted: Vec<f64> = values.to_vec();
    sorted.sort_by(f64::total_cmp);
    sorted.dedup_by(|a, b| a.total_cmp(b).is_eq());
    values
        .iter()
        .map(|v| sorted.iter().position(|s| s.total_cmp(v).is_eq()).unwrap() as u64)
        .collect()
}

fn keys(cases: &[Fake]) -> Vec<CaseKeys> {
    let o: Vec<f64> = cases.iter().map(|c| c.mag_o.abs()).collect();
    let p: Vec<f64> = cases.iter().map(|c| c.mag_p.abs()).collect();
    let two: Vec<f64> = cases.iter().map(|c| c.mag_o.abs().min(c.mag_p.abs())).collect();
    let incl: Vec<f64> = cases
        .iter()
        .map(|c| c.inclination_deg.abs() * c.mag_o.abs().max(c.mag_p.abs()))
        .collect();
    let (ro, rp, rt, ri) = (ranks(&o), ranks(&p), ranks(&two), ranks(&incl));
    cases
        .iter()
        .enumerate()
        .map(|(i, c)| CaseKeys {
            hinge_reversed: c.hinge_reversed,
            traction: c.traction,
            orientation_rank: ro[i],
            pivot_rank: rp[i],
            two_zones_rank: rt[i],
            inclination_rank: ri[i],
        })
        .collect()
}

fn envelope_keys(cases: &[Fake]) -> Vec<EnvelopeKeys> {
    let load: Vec<f64> = cases.iter().map(|c| c.mag_o.abs().max(c.mag_p.abs())).collect();
    let r = ranks(&load);
    cases
        .iter()
        .enumerate()
        .map(|(i, c)| EnvelopeKeys {
            splay_tenths: (c.splay_deg * 10.0).round() as i64,
            load_rank: r[i],
        })
        .collect()
}

#[test]
fn block_a_merges_labels_when_one_case_wins_multiple_criteria() {
    let cases = vec![
        fake_joint(100.0, 10.0, false, true, 1.0, -5.0),
        fake_joint(50.0, 200.0, true, false, 2.0, 10.0),
    ];
    let block_a = select_block_a(&keys(&cases));
    assert_eq!(block_a.len(), 2);

    let case0 = block_a.iter().find(|b| b.case_index == 0).unwrap();
    assert_eq!(case0.labels, vec!["effort orientation max"]);

    let case1 = block_a.iter().find(|b| b.case_index == 1).unwrap();
    assert_eq!(
        case1.labels,
        vec![
            "effort pivot max",
            "charnière inversée",
            "compression",
            "deux zones chargées",
            "inclinaison extrême",
        ]
    );
}

#[test]
fn block_a_omits_criteria_with_no_matching_case() {
    let cases = vec![
        fake_joint(100.0, 10.0, false, true, 1.0, -5.0),
        fake_joint(50.0, 200.0, false, true, 2.0, 10.0),
    ];
    let block_a = select_block_a(&keys(&cases));
    let case1 = block_a.iter().find(|b| b.case_index == 1).unwrap();
    assert!(!case1.labels.contains(&"compression"));
    assert!(!case1.labels.contains(&"charnière inversée"));
}

#[test]
fn block_a_is_empty_for_empty_input() {
    assert!(select_block_a(&Vec::new()).is_empty());
}

#[test]
fn block_b_envelope_picks_max_per_splay_and_sorts_ascending() {
    let cases = vec![
        fake_joint(100.0, 10.0, false, true, 1.0, 0.0),
        fake_joint(50.0, 40.0, false, true, 1.0, 0.0),
        fake_joint(30.0, 30.0, false, true, 2.0, 0.0),
    ];
    let block_a = select_block_a(&keys(&cases));
    let block_b = select_block_b(&envelope_keys(&cases), &block_a);

    assert_eq!(block_b.len(), 2, "un trou percé par splay distinct");

    let e1 = block_b.iter().find(|b| b.splay_tenths == 10).unwrap();
    assert_eq!(e1.case_index, 0, "idx0 (max 100) bat idx1 (max 50) au splay 1°");

    let e2 = block_b.iter().find(|b| b.splay_tenths == 20).unwrap();
    assert_eq!(e2.case_index, 2);

    assert!(block_b[0].splay_tenths < block_b[1].splay_tenths);
}

#[test]
fn block_b_flags_cases_already_retained_in_block_a() {
    let cases = vec![
        fake_joint(100.0, 10.0, false, true, 1.0, -5.0),
        fake_joint(10.0, 5.0, false, true, 2.0, 0.0),
    ];
    let block_a = select_block_a(&keys(&cases));
    assert!(block_a.iter().any(|b| b.case_index == 0));

    let block_b = select_block_b(&envelope_keys(&cases), &block_a);
    let e1 = block_b.iter().find(|b| b.splay_tenths == 10).unwrap();
    assert_eq!(e1.case_index, 0);
    assert!(
        e1.duplicate,
        "même grappe, même joint qu'au bloc A : inutile de le monter deux fois"
    );

    let e2 = block_b.iter().find(|b| b.splay_tenths == 20).unwrap();
    assert!(!e2.duplicate);
}

#[test]
fn a_tie_goes_to_the_last_case_in_block_a_and_to_the_first_in_block_b() {
    // Deux cas identiques : le critère de bloc A garde le dernier (comme
    // `Iterator::max_by`), l'enveloppe du bloc B garde le premier (seul un cas
    // strictement pire le remplace).
    let cases = vec![
        fake_joint(70.0, 20.0, false, true, 4.0, 0.0),
        fake_joint(70.0, 20.0, false, true, 4.0, 0.0),
    ];
    let k = keys(&cases);
    assert_eq!(criterion_winner(&k, 0), Some(1));
    let block_b = select_block_b(&envelope_keys(&cases), &select_block_a(&k));
    assert_eq!(block_b.len(), 1);
    assert_eq!(block_b[0].case_index, 0);
    assert!(!block_b[0].duplicate);
}

#[test]
fn negative_splays_sort_before_positive_ones() {
    let cases = vec![
        fake_joint(10.0, 1.0, false, true, 5.0, 0.0),
        fake_joint(10.0, 1.0, false, true, -3.5, 0.0),
        fake_joint(10.0, 1.0, false, true, 0.0, 0.0),
    ];
    let block_b = select_block_b(&envelope_keys(&cases), &Vec::new());
    let splays: Vec<i64> = block_b.iter().map(|b| b.splay_tenths).collect();
    assert_eq!(splays, vec![-35, 0, 50]);
    assert_eq!(block_b.iter().map(|b| b.case_index).collect::<Vec<_>>(), vec![1, 2, 0]);
}

#[test]
fn drilled_splays_are_sorted_and_deduplicated() {
    let grid: Vec<f64> = vec![20.0, 0.0, 1.0, 10.5, 3.0, 0.0, 5.0, 2.0, 4.0, 1.0];
    let keys: Vec<i64> = grid.iter().map(|s| (s * 10.0).round() as i64).collect();
    assert_eq!(drilled_splay_keys(&keys), vec![0, 10, 20, 30, 40, 50, 105, 200]);
}

#[test]
fn the_envelope_names_the_drilled_holes_it_says_nothing_about() {
    let cases = vec![
        fake_joint(10.0, 1.0, false, true, 1.0, 0.0),
        fake_joint(10.0, 1.0, false, true, 10.5, 0.0),
    ];
    let block_b = select_block_b(&envelope_keys(&cases), &Vec::new());
    let drilled = drilled_splay_keys(&vec![0, 10, 20, 105, 200]);
    let uncovered = uncovered_splays(&drilled, &block_b);
    assert_eq!(uncovered, vec![0, 20, 200]);
    for hole in &drilled {
        let covered = block_b.iter().any(|b| b.splay_tenths == *hole);
        assert!(covered != uncovered.contains(hole), "{hole} couvert et signalé à la fois");
    }
}

#[test]
fn widening_the_drilling_widens_the_uncovered_list() {
    let cases = vec![fake_joint(10.0, 1.0, false, true, 1.0, 0.0)];
    let block_b = select_block_b(&envelope_keys(&cases), &Vec::new());
    let narrow = uncovered_splays(&vec![0, 10, 20], &block_b);
    let wide = uncovered_splays(&vec![0, 10, 20, 190], &block_b);
    assert_eq!(narrow, vec![0, 20]);
    assert_eq!(wide, vec![0, 20, 190]);
}
