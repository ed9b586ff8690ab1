use ul_pricer::table::{
    build_rate_table, AgeDurationRow, AttainedAgeRow, CohortRow, CENT, MONEY_CAP, SCALE,
};

fn no_unit_rows() -> Vec<AgeDurationRow> {
    Vec::new()
}

fn no_corr_rows() -> Vec<AttainedAgeRow> {
    Vec::new()
}

fn no_coi_rows() -> Vec<CohortRow> {
    Vec::new()
}

#[test]
fn constants_are_consistent() {
    assert_eq!(SCALE, 1_000_000);
    assert_eq!(CENT, SCALE / 100);
    assert!(MONEY_CAP > SCALE);
}

#[test]
fn empty_data_leaves_every_series_at_its_default() {
    let g = "M".to_string();
    let rc = "NS".to_string();
    let t = build_rate_table(
        &g,
        &rc,
        35,
        60_000,
        120 * SCALE,
        999_171,
        2_466,
        &no_unit_rows(),
        &no_corr_rows(),
        &no_coi_rows(),
    );
    for i in 0..121 {
        assert_eq!(t.premium_loads.get(i), 60_000);
        assert_eq!(t.policy_fees.get(i), 120 * SCALE);
        assert_eq!(t.unit_loads.get(i), 0);
        assert_eq!(t.corr_facts.get(i), SCALE);
        assert_eq!(t.naar_discs.get(i), 999_171);
        assert_eq!(t.coi_rates.get(i), 0);
        assert_eq!(t.interest_rates.get(i), 2_466);
    }
}

#[test]
fn absent_cohort_leaves_data_series_at_defaults() {
    let g = "M".to_string();
    let rc = "NS".to_string();
    // Rows exist, but none is for the requested cohort: another issue age,
    // another gender, and attained ages before issue.
    let unit_rows = vec![AgeDurationRow { issue_age: 40, policy_year: 1, rate: 500_000 }];
    let corr_rows = vec![AttainedAgeRow { attained_age: 30, rate: 2 * SCALE }];
    let coi_rows = vec![CohortRow {
        gender: "F".to_string(),
        risk_class: "NS".to_string(),
        issue_age: 35,
        policy_year: 2,
        rate: 3 * SCALE,
    }];
    let t = build_rate_table(&g, &rc, 35, 0, 0, 0, 0, &unit_rows, &corr_rows, &coi_rows);
    for i in 0..121 {
        assert_eq!(t.unit_loads.get(i), 0);
        assert_eq!(t.corr_facts.get(i), SCALE);
        assert_eq!(t.coi_rates.get(i), 0);
    }
}

#[test]
fn every_series_has_exactly_121_entries() {
    let g = "F".to_string();
    let rc = "S".to_string();
    let unit_rows = vec![AgeDurationRow { issue_age: 50, policy_year: 121, rate: 1 }];
    let t = build_rate_table(&g, &rc, 50, 0, 0, 0, 0, &unit_rows, &no_corr_rows(), &no_coi_rows());
    assert_eq!(t.premium_loads.len(), 121);
    assert_eq!(t.policy_fees.len(), 121);
    assert_eq!(t.unit_loads.len(), 121);
    assert_eq!(t.corr_facts.len(), 121);
    assert_eq!(t.naar_discs.len(), 121);
    assert_eq!(t.coi_rates.len(), 121);
    assert_eq!(t.interest_rates.len(), 121);
}

#[test]
fn matching_rows_land_at_duration_minus_one() {
    let g = "M".to_string();
    let rc = "NS".to_string();
    let unit_rows = vec![
        AgeDurationRow { issue_age: 35, policy_year: 3, rate: 777 },
        AgeDurationRow { issue_age: 36, policy_year: 5, rate: 111 },
    ];
    let corr_rows = vec![AttainedAgeRow { attained_age: 40, rate: 2_500_000 }];
    let coi_rows = vec![CohortRow {
        gender: "M".to_string(),
        risk_class: "NS".to_string(),
        issue_age: 35,
        policy_year: 10,
        rate: 42_000,
    }];
    let t = build_rate_table(&g, &rc, 35, 0, 0, 0, 0, &unit_rows, &corr_rows, &coi_rows);
    assert_eq!(t.unit_loads.get(2), 777);
    assert_eq!(t.unit_loads.get(4), 0); // other issue age ignored
    assert_eq!(t.corr_facts.get(5), 2_500_000); // attained 40 - issue 35
    assert_eq!(t.corr_facts.get(0), SCALE);
    assert_eq!(t.coi_rates.get(9), 42_000);
    assert_eq!(t.coi_rates.get(8), 0);
}

#[test]
fn later_rows_overwrite_earlier_ones() {
    let g = "M".to_string();
    let rc = "NS".to_string();
    let unit_rows = vec![
        AgeDurationRow { issue_age: 35, policy_year: 7, rate: 100 },
        AgeDurationRow { issue_age: 35, policy_year: 7, rate: 200 },
    ];
    let t =
        build_rate_table(&g, &rc, 35, 0, 0, 0, 0, &unit_rows, &no_corr_rows(), &no_coi_rows());
    assert_eq!(t.unit_loads.get(6), 200);
}

#[test]
fn cohort_match_needs_gender_class_and_age() {
    let g = "M".to_string();
    let rc = "NS".to_string();
    let coi_rows = vec![
        CohortRow {
            gender: "M".to_string(),
            risk_class: "S".to_string(),
            issue_age: 35,
            policy_year: 1,
            rate: 11,
        },
        CohortRow {
            gender: "F".to_string(),
            risk_class: "NS".to_string(),
            issue_age: 35,
            policy_year: 2,
            rate: 22,
        },
        CohortRow {
            gender: "M".to_string(),
            risk_class: "NS".to_string(),
            issue_age: 36,
            policy_year: 3,
            rate: 33,
        },
        CohortRow {
            gender: "M".to_string(),
            risk_class: "NS".to_string(),
            issue_age: 35,
            policy_year: 4,
            rate: 44,
        },
    ];
    let t =
        build_rate_table(&g, &rc, 35, 0, 0, 0, 0, &no_unit_rows(), &no_corr_rows(), &coi_rows);
    assert_eq!(t.coi_rates.get(0), 0);
    assert_eq!(t.coi_rates.get(1), 0);
    assert_eq!(t.coi_rates.get(2), 0);
    assert_eq!(t.coi_rates.get(3), 44);
}
