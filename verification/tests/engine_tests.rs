use ul_pricer::engine::project;
use ul_pricer::table::{
    build_rate_table, AgeDurationRow, AttainedAgeRow, CohortRow, RateTable, MONEY_CAP, SCALE,
};

fn table(premium_load: i64, policy_fee: i64, naar_disc: i64, interest: i64) -> RateTable {
    let g = "M".to_string();
    let rc = "NS".to_string();
    let unit_rows: Vec<AgeDurationRow> = Vec::new();
    let corr_rows: Vec<AttainedAgeRow> = Vec::new();
    let coi_rows: Vec<CohortRow> = Vec::new();
    build_rate_table(
        &g,
        &rc,
        35,
        premium_load,
        policy_fee,
        naar_disc,
        interest,
        &unit_rows,
        &corr_rows,
        &coi_rows,
    )
}

#[test]
fn chargeless_projection_keeps_the_premium() {
    // No loads, fees, discounting or interest: one premium is paid at the
    // start of each policy year and nothing else moves the account, so the
    // final value is the premium times the number of projected years.
    let t = table(0, 0, 0, 0);
    let p = 42 * SCALE;
    assert_eq!(project(&t, 120, 1_000 * SCALE, p), Some(p));
    assert_eq!(project(&t, 0, 1_000 * SCALE, p), Some(121 * p));
}

#[test]
fn premium_load_takes_its_share_of_each_premium() {
    // A 25% premium load on a 100.00 premium leaves 75.00.
    let t = table(250_000, 0, 0, 0);
    let face = 1_000_000 * SCALE;
    assert_eq!(project(&t, 120, face, 100 * SCALE), Some(75 * SCALE));
}

#[test]
fn policy_fee_is_spread_over_twelve_months() {
    // A 24.00 annual fee charges 2.00 each month; one policy year consumes it.
    let t = table(0, 24 * SCALE, 0, 0);
    let face = 1_000_000 * SCALE;
    assert_eq!(project(&t, 120, face, 100 * SCALE), Some(76 * SCALE));
}

#[test]
fn unit_load_charges_per_thousand_of_face() {
    // Unit load 1.2 per 1000 of a 10000.00 face: 12.00 a year, 1.00 a month,
    // for the first policy year only.
    let g = "M".to_string();
    let rc = "NS".to_string();
    let unit_rows = vec![AgeDurationRow { issue_age: 120, policy_year: 1, rate: 1_200_000 }];
    let corr_rows: Vec<AttainedAgeRow> = Vec::new();
    let coi_rows: Vec<CohortRow> = Vec::new();
    let t = build_rate_table(&g, &rc, 120, 0, 0, 0, 0, &unit_rows, &corr_rows, &coi_rows);
    let face = 10_000 * SCALE;
    assert_eq!(project(&t, 120, face, 100 * SCALE), Some(88 * SCALE));
}

#[test]
fn interest_compounds_monthly_on_positive_balances() {
    // 100% monthly interest doubles the value each of the 12 final-year months.
    let t = table(0, 0, 0, SCALE);
    let face = 1_000_000_000 * SCALE;
    assert_eq!(project(&t, 120, face, SCALE), Some(4096 * SCALE));
}

#[test]
fn cost_of_insurance_charges_against_net_amount_at_risk() {
    // Face 12000.00, full NAAR discount, COI rate 1.0 per 1000 a year, no
    // premium: each month charges 1.00 against an empty account.
    let g = "M".to_string();
    let rc = "NS".to_string();
    let unit_rows: Vec<AgeDurationRow> = Vec::new();
    let corr_rows: Vec<AttainedAgeRow> = Vec::new();
    let coi_rows = vec![CohortRow {
        gender: "M".to_string(),
        risk_class: "NS".to_string(),
        issue_age: 120,
        policy_year: 1,
        rate: SCALE,
    }];
    let t = build_rate_table(&g, &rc, 120, 0, 0, SCALE, 0, &unit_rows, &corr_rows, &coi_rows);
    let face = 12_000 * SCALE;
    assert_eq!(project(&t, 120, face, 0), Some(-12 * SCALE));
}

#[test]
fn interest_is_never_credited_on_a_negative_balance() {
    // A fee drives the account negative; 100% monthly interest must not act
    // on the negative balance.
    let t = table(0, 24 * SCALE, 0, SCALE);
    let face = 1_000_000 * SCALE;
    assert_eq!(project(&t, 120, face, 0), Some(-24 * SCALE));
}

#[test]
fn projection_is_monotone_in_the_premium() {
    let t = table(60_000, 120 * SCALE, 999_171, 2_466);
    let face = 100_000 * SCALE;
    let lo = project(&t, 35, face, 1_000 * SCALE).unwrap();
    let hi = project(&t, 35, face, 1_100 * SCALE).unwrap();
    assert!(lo <= hi);
}

#[test]
fn runaway_growth_is_reported_not_mispriced() {
    // 100% monthly interest over a full lifetime projection overflows any
    // fixed range; the engine must say so rather than return a number.
    let t = table(0, 0, 0, SCALE);
    assert_eq!(project(&t, 0, 1_000_000 * SCALE, 1_000 * SCALE), None);
}

#[test]
fn largest_face_amount_projects_without_overflow() {
    let t = table(0, 0, 0, 0);
    assert_eq!(project(&t, 120, MONEY_CAP, 0), Some(0));
}
