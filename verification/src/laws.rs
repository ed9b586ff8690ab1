//! Laws of the projection engine: the final account value is monotone in the
//! annual premium, and a policy that never pays premium never ends solvent
//! with a positive value. The premium solver's contract rests on both.
use vstd::prelude::*;
use vstd::arithmetic::div_mod::lemma_div_pos_is_pos;
use vstd::arithmetic::div_mod::lemma_div_is_ordered;
use vstd::arithmetic::div_mod::lemma_hoist_over_denominator;
use vstd::arithmetic::mul::lemma_mul_inequality;
use vstd::arithmetic::mul::lemma_mul_is_distributive_sub_other_way;
use vstd::arithmetic::mul::lemma_mul_nonnegative;
use crate::table::RateTable;
use crate::table::LOAD_CAP;
use crate::table::CORR_CAP;
use crate::table::COI_CAP;
use crate::table::CENT;
use crate::table::SCALE;
use crate::engine::month_end;
use crate::engine::value_after;
use crate::engine::projection_months;
use crate::engine::projected;

verus! {

/// For non-negative `a <= b` and `k`, the two scaled products `a*k/d` and
/// `b*k/d` differ by at most `t` whenever `(b - a)*k <= t*d`.
proof fn lemma_mul_div_le_diff(a: int, b: int, k: int, d: int, t: int)
    requires
        0 <= a <= b,
        0 <= k,
        0 < d,
        (b - a) * k <= t * d,
    ensures
        b * k / d <= a * k / d + t,
{
    lemma_mul_is_distributive_sub_other_way(k, b, a);
    assert(b * k <= a * k + t * d);
    lemma_div_is_ordered(b * k, a * k + t * d, d);
    lemma_hoist_over_denominator(a * k, t, d as nat);
}

/// Scaled products are monotone in their first factor.
proof fn lemma_mul_div_mono(a: int, b: int, k: int, d: int)
    requires
        a <= b,
        0 <= k,
        0 < d,
    ensures
        a * k / d <= b * k / d,
{
    lemma_mul_inequality(a, b, k);
    lemma_div_is_ordered(a * k, b * k, d);
}

/// Scaled products of non-negative factors are non-negative.
proof fn lemma_mul_div_nonneg(a: int, k: int, d: int)
    requires
        0 <= a,
        0 <= k,
        0 < d,
    ensures
        0 <= a * k / d,
{
    lemma_mul_nonnegative(a, k);
    lemma_div_pos_is_pos(a * k, d);
}

/// One month of the projection is monotone jointly in the carried value and
/// the premium paid, for any well-formed rate table: a premium load of at
/// most 100% cannot eat more than the extra premium, and the corridor,
/// discount and cost-of-insurance bounds keep the extra risk charge below the
/// extra account value.
pub proof fn lemma_month_end_monotone(
    rt: RateTable,
    face: int,
    prem1: int,
    prem2: int,
    y: int,
    s1: int,
    s2: int,
)
    requires
        rt.wf(),
        0 <= y < 121,
        0 < face,
        0 <= prem1 <= prem2,
        s1 <= s2,
    ensures
        month_end(rt, face, prem1, y, s1) <= month_end(rt, face, prem2, y, s2),
{
    let sc = SCALE as int;
    let load = rt.premium_loads@[y];
    let corr = rt.corr_facts@[y];
    let disc = rt.naar_discs@[y];
    let coi_rate = rt.coi_rates@[y];
    let irate = rt.interest_rates@[y];
    assert(0 <= load <= LOAD_CAP as int);
    assert(0 <= corr <= CORR_CAP as int);
    assert(0 <= disc <= LOAD_CAP as int);
    assert(0 <= coi_rate <= COI_CAP as int);
    assert(0 <= irate <= LOAD_CAP as int);

    let fee = rt.policy_fees@[y];
    let unit = rt.unit_loads@[y];
    let expense = (1000 * sc * fee + unit * face) / (12000 * sc);

    let pl1 = prem1 * load / sc;
    let pl2 = prem2 * load / sc;
    lemma_mul_div_mono(prem1, prem2, load, sc);
    lemma_mul_inequality(load, sc, prem2 - prem1);
    lemma_mul_div_le_diff(prem1, prem2, load, sc, prem2 - prem1);

    let av1 = s1 + prem1 - pl1 - expense;
    let av2 = s2 + prem2 - pl2 - expense;
    assert(av1 <= av2);
    let d = av2 - av1;

    // The death-benefit account values and corridor multiples.
    let ca1 = if av1 >= 0 {
        corr * av1 / sc
    } else {
        0
    };
    let ca2 = if av2 >= 0 {
        corr * av2 / sc
    } else {
        0
    };
    if av1 >= 0 {
        lemma_mul_div_mono(av1, av2, corr, sc);
        lemma_mul_div_nonneg(av1, corr, sc);
        lemma_mul_inequality(corr, 4 * sc, d);
        lemma_mul_div_le_diff(av1, av2, corr, sc, 4 * d);
        assert(av1 * corr == corr * av1) by (nonlinear_arith);
        assert(av2 * corr == corr * av2) by (nonlinear_arith);
    } else if av2 >= 0 {
        lemma_mul_div_nonneg(av2, corr, sc);
        lemma_mul_inequality(corr, 4 * sc, av2);
        lemma_mul_div_le_diff(0, av2, corr, sc, 4 * av2);
        assert(0 * corr == 0) by (nonlinear_arith);
        assert(0int / sc == 0);
        assert(av2 * corr == corr * av2) by (nonlinear_arith);
        assert(ca2 <= 4 * av2);
        assert(av2 <= d);
    }
    assert(ca1 <= ca2);
    assert(ca2 - ca1 <= 4 * d);
    assert(0 <= ca1);

    let db1 = if ca1 > face {
        ca1
    } else {
        face
    };
    let db2 = if ca2 > face {
        ca2
    } else {
        face
    };
    assert(0 < db1 <= db2);
    assert(db2 - db1 <= 4 * d);

    let dd1 = db1 * disc / sc;
    let dd2 = db2 * disc / sc;
    lemma_mul_div_mono(db1, db2, disc, sc);
    lemma_mul_div_nonneg(db1, disc, sc);
    lemma_mul_inequality(disc, sc, db2 - db1);
    lemma_mul_div_le_diff(db1, db2, disc, sc, 4 * d);
    assert(dd1 <= dd2);
    assert(dd2 - dd1 <= 4 * d);

    let af1 = if av1 > 0 {
        av1
    } else {
        0
    };
    let af2 = if av2 > 0 {
        av2
    } else {
        0
    };
    let n1 = if dd1 - af1 > 0 {
        dd1 - af1
    } else {
        0
    };
    let n2 = if dd2 - af2 > 0 {
        dd2 - af2
    } else {
        0
    };
    assert(0 <= n1);
    assert(0 <= n2);
    assert(n2 - n1 <= 4 * d);

    let c1 = n1 * coi_rate / (12000 * sc);
    let c2 = n2 * coi_rate / (12000 * sc);
    lemma_mul_div_nonneg(n1, coi_rate, 12000 * sc);
    lemma_mul_div_nonneg(n2, coi_rate, 12000 * sc);
    if n2 >= n1 {
        lemma_mul_inequality(coi_rate, 3000 * sc, n2 - n1);
        lemma_mul_div_le_diff(n1, n2, coi_rate, 12000 * sc, d);
    } else {
        lemma_mul_div_mono(n2, n1, coi_rate, 12000 * sc);
    }
    assert(c2 - c1 <= d);

    let ai1 = av1 - c1;
    let ai2 = av2 - c2;
    assert(ai1 <= ai2);

    let i1 = if ai1 >= 0 {
        ai1 * irate / sc
    } else {
        0
    };
    let i2 = if ai2 >= 0 {
        ai2 * irate / sc
    } else {
        0
    };
    if ai1 >= 0 {
        lemma_mul_div_mono(ai1, ai2, irate, sc);
        lemma_mul_div_nonneg(ai1, irate, sc);
    } else if ai2 >= 0 {
        lemma_mul_div_nonneg(ai2, irate, sc);
    }
    assert(i1 <= i2);

    assert(month_end(rt, face, prem1, y, s1) == ai1 + i1);
    assert(month_end(rt, face, prem2, y, s2) == ai2 + i2);
}

/// The account value after any number of months is monotone in the annual
/// premium.
pub proof fn lemma_value_after_monotone(rt: RateTable, face: int, prem1: int, prem2: int, n: nat)
    requires
        rt.wf(),
        0 < face,
        0 <= prem1 <= prem2,
        n <= 1452,
    ensures
        value_after(rt, face, prem1, n) <= value_after(rt, face, prem2, n),
    decreases n,
{
    if n > 0 {
        lemma_value_after_monotone(rt, face, prem1, prem2, (n - 1) as nat);
        let i = n - 1;
        lemma_div_pos_is_pos(i as int, 12);
        lemma_div_is_ordered(i as int, 1451, 12);
        let mp1 = if i % 12 == 0 {
            prem1
        } else {
            0
        };
        let mp2 = if i % 12 == 0 {
            prem2
        } else {
            0
        };
        lemma_month_end_monotone(
            rt,
            face,
            mp1,
            mp2,
            i as int / 12,
            value_after(rt, face, prem1, (n - 1) as nat),
            value_after(rt, face, prem2, (n - 1) as nat),
        );
    }
}

/// Monotonicity: a larger annual premium never projects to a smaller final
/// account value, for any well-formed table, issue age and face amount.
pub proof fn lemma_projected_monotone(rt: RateTable, issue_age: int, face: int, prem1: int, prem2: int)
    requires
        rt.wf(),
        0 <= issue_age < 121,
        0 < face,
        0 <= prem1 <= prem2,
    ensures
        projected(rt, issue_age, face, prem1) <= projected(rt, issue_age, face, prem2),
{
    lemma_value_after_monotone(rt, face, prem1, prem2, projection_months(issue_age) as nat);
}

/// Minimality of a solved premium: once the projection one cent below `p`
/// ends insolvent, so does the projection at every premium at or below that,
/// whole cents included — `p` is not an arbitrary safe value above the least
/// sufficient one.
pub proof fn lemma_cheaper_premiums_stay_insolvent(
    rt: RateTable,
    issue_age: int,
    face: int,
    p: int,
    q: int,
)
    requires
        rt.wf(),
        0 <= issue_age < 121,
        0 < face,
        0 <= q <= p - CENT as int,
        projected(rt, issue_age, face, p - CENT as int) <= 0,
    ensures
        projected(rt, issue_age, face, q) <= 0,
{
    lemma_projected_monotone(rt, issue_age, face, q, p - CENT as int);
}

/// The boundary issue age of 120 is priced over a single 12-month policy
/// year; issue ages at or past maturity are ruled out by precondition.
pub proof fn lemma_boundary_age_projects_one_year(rt: RateTable, face: int, prem: int)
    ensures
        projection_months(120) == 12,
        projected(rt, 120, face, prem) == value_after(rt, face, prem, 12),
{
}

/// A month that starts at or below zero with no premium paid ends at or below
/// zero: charges only take from the account and interest is credited only on
/// a positive balance.
pub proof fn lemma_month_end_zero_nonpos(rt: RateTable, face: int, y: int, start: int)
    requires
        rt.wf(),
        0 <= y < 121,
        0 < face,
        start <= 0,
    ensures
        month_end(rt, face, 0, y, start) <= 0,
{
    let sc = SCALE as int;
    let load = rt.premium_loads@[y];
    let fee = rt.policy_fees@[y];
    let unit = rt.unit_loads@[y];
    let corr = rt.corr_facts@[y];
    let disc = rt.naar_discs@[y];
    let coi_rate = rt.coi_rates@[y];
    let irate = rt.interest_rates@[y];
    assert(0 <= fee);
    assert(0 <= unit);

    assert(0 * load == 0) by (nonlinear_arith);
    assert(0int / sc == 0);
    lemma_mul_nonnegative(unit, face);
    lemma_div_pos_is_pos(1000 * sc * fee + unit * face, 12000 * sc);
    let expense = (1000 * sc * fee + unit * face) / (12000 * sc);
    let av = start - expense;
    assert(av <= 0);

    let ca = if av >= 0 {
        corr * av / sc
    } else {
        0
    };
    if av >= 0 {
        assert(av == 0);
        assert(corr * 0 == 0) by (nonlinear_arith);
    }
    assert(ca == 0);
    let db = face;

    lemma_mul_div_nonneg(db, disc, sc);
    let dd = db * disc / sc;
    let af = if av > 0 {
        av
    } else {
        0
    };
    let naar = if dd - af > 0 {
        dd - af
    } else {
        0
    };
    lemma_mul_div_nonneg(naar, coi_rate, 12000 * sc);
    let coi = naar * coi_rate / (12000 * sc);
    let ai = av - coi;
    assert(ai <= 0);
    let interest = if ai >= 0 {
        ai * irate / sc
    } else {
        0
    };
    if ai >= 0 {
        assert(ai == 0);
        assert(0 * irate == 0) by (nonlinear_arith);
    }
    assert(interest == 0);
    assert(month_end(rt, face, 0, y, start) == ai + interest);
}

/// With no premium ever paid the carried value never rises above zero.
pub proof fn lemma_value_after_zero_nonpos(rt: RateTable, face: int, n: nat)
    requires
        rt.wf(),
        0 < face,
        n <= 1452,
    ensures
        value_after(rt, face, 0, n) <= 0,
    decreases n,
{
    if n > 0 {
        lemma_value_after_zero_nonpos(rt, face, (n - 1) as nat);
        let i = n - 1;
        lemma_div_pos_is_pos(i as int, 12);
        lemma_div_is_ordered(i as int, 1451, 12);
        lemma_month_end_zero_nonpos(
            rt,
            face,
            i as int / 12,
            value_after(rt, face, 0, (n - 1) as nat),
        );
    }
}

/// A projection with a zero annual premium never ends with a positive value.
pub proof fn lemma_projected_zero_nonpos(rt: RateTable, issue_age: int, face: int)
    requires
        rt.wf(),
        0 <= issue_age < 121,
        0 < face,
    ensures
        projected(rt, issue_age, face, 0) <= 0,
{
    lemma_value_after_zero_nonpos(rt, face, projection_months(issue_age) as nat);
}

} // verus!
