use ul_pricer::engine::project;
use ul_pricer::solver::solve_premium;
use ul_pricer::table::{
    build_rate_table, AgeDurationRow, AttainedAgeRow, CohortRow, RateTable, CENT, SCALE,
};

fn table(premium_load: i64, policy_fee: i64, naar_disc: i64, interest: i64) -> RateTable {
    let g = "M".to_string();
    let rc = "NS".to_string();
    let unit_rows: Vec<AgeDurationRow> = Vec::new();
    let corr_rows: Vec<AttainedAgeRow> = Vec::new();
    let coi_rows: Vec<CohortRow> = Vec::new();
    build_rate_table(
        &g,
        &rc,
        35,
        premium_load,
        policy_fee,
        naar_disc,
        interest,
        &unit_rows,
        &corr_rows,
        &coi_rows,
    )
}

#[test]
fn solved_premium_is_the_minimal_sufficient_cent_amount() {
    // Pure fee policy from age 35: each of the 86 years costs 24.00, so any
    // premium above 24.00 ends positive and 24.00 exactly ends at zero. The
    // smallest sufficient whole-cent premium is 24.01.
    let t = table(0, 24 * SCALE, 0, 0);
    let face = 100 * SCALE;
    let p = solve_premium(&t, 35, face).unwrap();
    assert_eq!(p, 24 * SCALE + CENT);
    assert_eq!(project(&t, 35, face, 24 * SCALE), Some(0));
    assert_eq!(project(&t, 35, face, p), Some(86 * CENT));
}

#[test]
fn solved_premium_keeps_the_policy_solvent_to_maturity() {
    // The regression scenario: issue age 35, face 100000.00, 6% premium load,
    // 120.00 annual policy fee, no unit loads, corridor 1.0, NAAR discount
    // 1.01^(-1/12), no COI, interest 1.03^(1/12)-1.
    let t = table(60_000, 120 * SCALE, 999_171, 2_466);
    let face = 100_000 * SCALE;
    let p = solve_premium(&t, 35, face).unwrap();
    // Minimal sufficient cent amount: solvent at p, insolvent one cent lower.
    assert!(project(&t, 35, face, p).unwrap() > 0);
    assert!(project(&t, 35, face, p - CENT).unwrap() <= 0);
    assert_eq!(p % CENT, 0);
    // The fee-and-load-only policy needs a premium just above 120/0.94 a
    // year, less the interest the accumulating balance earns; the bisection
    // converges to this fixed regression baseline.
    assert_eq!(p, 125_950_000);
    // Deterministic: solving again prices identically.
    assert_eq!(solve_premium(&t, 35, face), Some(p));
}

#[test]
fn immediately_solvent_guess_skips_the_doubling_phase() {
    // With no charges at all, one percent of face is already solvent, so no
    // doubling happens and the solver lands on the smallest positive cent.
    let t = table(0, 0, 0, 0);
    let face = 100 * SCALE;
    let p = solve_premium(&t, 35, face).unwrap();
    assert_eq!(p, CENT);
    assert!(p <= face / 100 + 2 * CENT);
}

#[test]
fn boundary_issue_age_is_priced_over_a_single_year() {
    // Issue age 120 projects exactly one 12-month year: a 24.00 fee policy
    // needs 24.01 to end positive after that single year.
    let t = table(0, 24 * SCALE, 0, 0);
    let face = 100 * SCALE;
    let p = solve_premium(&t, 120, face).unwrap();
    assert_eq!(p, 24 * SCALE + CENT);
}

#[test]
fn unpriceable_runaway_table_yields_none() {
    // 100% monthly interest overflows the tracked range for every candidate
    // premium, so no price is reported.
    let t = table(0, 0, 0, SCALE);
    assert_eq!(solve_premium(&t, 0, 1_000_000 * SCALE), None);
}

#[test]
fn smallest_face_amount_is_priceable() {
    // One currency unit of face, no charges: a single cent is enough.
    let t = table(0, 0, 0, 0);
    assert_eq!(solve_premium(&t, 35, SCALE), Some(CENT));
}
