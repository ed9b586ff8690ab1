//! The monthly projection engine: a pure state machine that carries an
//! account value month by month from issue to maturity (attained age 121)
//! under the rates of one table, and reports the final value.
use vstd::prelude::*;
use vstd::arithmetic::div_mod::lemma_div_pos_is_pos;
use vstd::arithmetic::div_mod::lemma_div_is_ordered;
use vstd::arithmetic::div_mod::lemma_fundamental_div_mod;
use crate::table::RateTable;
use crate::table::MONEY_CAP;
use crate::table::SCALE;

verus! {

/// The account value at the end of one month, from the value `start` carried
/// into it. `prem` is the premium paid this month (the annual premium in the
/// first month of a policy year, 0 otherwise), `y` the policy year index
/// (policy year - 1). Divisions are the engine's fixed-point scalings.
pub open spec fn month_end(rt: RateTable, face: int, prem: int, y: int, start: int) -> int {
    let load = rt.premium_loads@[y];
    let fee = rt.policy_fees@[y];
    let unit = rt.unit_loads@[y];
    let corr = rt.corr_facts@[y];
    let disc = rt.naar_discs@[y];
    let coi_rate = rt.coi_rates@[y];
    let irate = rt.interest_rates@[y];
    let premium_load = prem * load / (SCALE as int);
    let expense = (1000 * (SCALE as int) * fee + unit * face) / (12000 * (SCALE as int));
    let av_db = start + prem - premium_load - expense;
    let corr_av = if av_db >= 0 {
        corr * av_db / (SCALE as int)
    } else {
        0
    };
    let db = if corr_av > face {
        corr_av
    } else {
        face
    };
    let disc_db = db * disc / (SCALE as int);
    let av_floor = if av_db > 0 {
        av_db
    } else {
        0
    };
    let naar = if disc_db - av_floor > 0 {
        disc_db - av_floor
    } else {
        0
    };
    let coi = naar * coi_rate / (12000 * (SCALE as int));
    let av_int = av_db - coi;
    let interest = if av_int >= 0 {
        av_int * irate / (SCALE as int)
    } else {
        0
    };
    av_int + interest
}

/// The account value after the first `n` months of a projection, starting
/// from 0. Month `i` (0-based) pays the annual premium exactly when
/// `i % 12 == 0` and reads the rates of policy year index `i / 12`.
pub open spec fn value_after(rt: RateTable, face: int, prem: int, n: nat) -> int
    decreases n,
{
    if n == 0 {
        0
    } else {
        let i = n - 1;
        month_end(
            rt,
            face,
            if i % 12 == 0 {
                prem
            } else {
                0
            },
            i / 12,
            value_after(rt, face, prem, (n - 1) as nat),
        )
    }
}

/// The carried value stays within `[-MONEY_CAP, MONEY_CAP]` through the first
/// `n` months.
pub open spec fn in_cap_through(rt: RateTable, face: int, prem: int, n: nat) -> bool
    decreases n,
{
    if n == 0 {
        true
    } else {
        in_cap_through(rt, face, prem, (n - 1) as nat) && -(MONEY_CAP as int) <= value_after(
            rt,
            face,
            prem,
            n,
        ) <= MONEY_CAP as int
    }
}

/// How many months a projection from `issue_age` runs: 12 per year to
/// maturity at attained age 121.
pub open spec fn projection_months(issue_age: int) -> int {
    12 * (121 - issue_age)
}

/// The final account value of a full projection.
pub open spec fn projected(rt: RateTable, issue_age: int, face: int, prem: int) -> int {
    value_after(rt, face, prem, projection_months(issue_age) as nat)
}

/// The carried value stays within the tracked range through a full projection.
pub open spec fn projected_in_cap(rt: RateTable, issue_age: int, face: int, prem: int) -> bool {
    in_cap_through(rt, face, prem, projection_months(issue_age) as nat)
}

/// A projection that stays in range through month `n` stays in range through
/// every earlier month.
pub proof fn lemma_in_cap_prefix(rt: RateTable, face: int, prem: int, m: nat, n: nat)
    requires
        m <= n,
        in_cap_through(rt, face, prem, n),
    ensures
        in_cap_through(rt, face, prem, m),
    decreases n,
{
    if m < n {
        lemma_in_cap_prefix(rt, face, prem, m, (n - 1) as nat);
    }
}

/// One month of the projection, executed in 128-bit fixed-point arithmetic.
/// Every division has a provably non-negative numerator, so machine division
/// agrees with the mathematical (floor) division of `month_end`.
fn month_value(rates: &RateTable, face_amount: i64, premium: i64, y: usize, start: i64) -> (end:
    i64)
    requires
        rates.wf(),
        y < 121,
        0 < face_amount <= MONEY_CAP,
        0 <= premium <= MONEY_CAP,
        -MONEY_CAP <= start <= MONEY_CAP,
    ensures
        end as int == month_end(
            *rates,
            face_amount as int,
            premium as int,
            y as int,
            start as int,
        ),
        -5000000000000000 <= end <= 4000000000000000,
{
    let load: i64 = rates.premium_loads.get(y);
    let fee: i64 = rates.policy_fees.get(y);
    let unit: i64 = rates.unit_loads.get(y);
    let corr: i64 = rates.corr_facts.get(y);
    let disc: i64 = rates.naar_discs.get(y);
    let coi_rate: i64 = rates.coi_rates.get(y);
    let irate: i64 = rates.interest_rates.get(y);
    let prem_v: i128 = premium as i128;
    let start_v: i128 = start as i128;
    let face_v: i128 = face_amount as i128;
    let scale_v: i128 = SCALE as i128;

    proof {
        assert(prem_v * (load as i128) <= 1000000000000000000000int) by (nonlinear_arith)
            requires
                0 <= prem_v <= 1000000000000000,
                0 <= load <= 1000000,
        ;
        lemma_div_pos_is_pos(prem_v * (load as i128), 1000000int);
        lemma_div_is_ordered(prem_v * (load as i128), 1000000000000000000000int, 1000000int);
    }
    let premium_load: i128 = prem_v * (load as i128) / scale_v;

    proof {
        assert((unit as i128) * face_v <= 1000000000000000000000000int) by (nonlinear_arith)
            requires
                0 <= unit <= 1000000000,
                0 < face_v <= 1000000000000000,
        ;
        assert((unit as i128) * face_v >= 0) by (nonlinear_arith)
            requires
                0 <= unit,
                0 < face_v,
        ;
        lemma_div_pos_is_pos(
            1000000000int * (fee as int) + (unit as int) * (face_v as int),
            12000000000int,
        );
        lemma_div_is_ordered(
            1000000000int * (fee as int) + (unit as int) * (face_v as int),
            2000000000000000000000000int,
            12000000000int,
        );
    }
    let expense: i128 = (1000 * scale_v * (fee as i128) + (unit as i128) * face_v) / (12000
        * scale_v);
    let av_db: i128 = start_v + prem_v - premium_load - expense;

    let corr_av: i128 = if av_db >= 0 {
        proof {
            assert((corr as i128) * av_db <= 8000000000000000000000int) by (nonlinear_arith)
                requires
                    0 <= corr <= 4000000,
                    0 <= av_db <= 2000000000000000,
            ;
            assert((corr as i128) * av_db >= 0) by (nonlinear_arith)
                requires
                    0 <= corr,
                    0 <= av_db,
            ;
            lemma_div_pos_is_pos((corr as int) * (av_db as int), 1000000int);
            lemma_div_is_ordered(
                (corr as int) * (av_db as int),
                8000000000000000000000int,
                1000000int,
            );
        }
        (corr as i128) * av_db / scale_v
    } else {
        0
    };
    let db: i128 = if corr_av > face_v {
        corr_av
    } else {
        face_v
    };

    proof {
        assert(db * (disc as i128) <= 8000000000000000000000int) by (nonlinear_arith)
            requires
                0 < db <= 8000000000000000,
                0 <= disc <= 1000000,
        ;
        assert(db * (disc as i128) >= 0) by (nonlinear_arith)
            requires
                0 < db,
                0 <= disc,
        ;
        lemma_div_pos_is_pos((db as int) * (disc as int), 1000000int);
        lemma_div_is_ordered((db as int) * (disc as int), 8000000000000000000000int, 1000000int);
    }
    let disc_db: i128 = db * (disc as i128) / scale_v;
    let av_floor: i128 = if av_db > 0 {
        av_db
    } else {
        0
    };
    let naar: i128 = if disc_db - av_floor > 0 {
        disc_db - av_floor
    } else {
        0
    };

    proof {
        assert(naar * (coi_rate as i128) <= 24000000000000000000000000int) by (nonlinear_arith)
            requires
                0 <= naar <= 8000000000000000,
                0 <= coi_rate <= 3000000000,
        ;
        assert(naar * (coi_rate as i128) >= 0) by (nonlinear_arith)
            requires
                0 <= naar,
                0 <= coi_rate,
        ;
        lemma_div_pos_is_pos((naar as int) * (coi_rate as int), 12000000000int);
        lemma_div_is_ordered(
            (naar as int) * (coi_rate as int),
            24000000000000000000000000int,
            12000000000int,
        );
    }
    let coi: i128 = naar * (coi_rate as i128) / (12000 * scale_v);
    let av_int: i128 = av_db - coi;

    let interest: i128 = if av_int >= 0 {
        proof {
            assert(av_int * (irate as i128) <= 2000000000000000000000int) by (nonlinear_arith)
                requires
                    0 <= av_int <= 2000000000000000,
                    0 <= irate <= 1000000,
            ;
            assert(av_int * (irate as i128) >= 0) by (nonlinear_arith)
                requires
                    0 <= av_int,
                    0 <= irate,
            ;
            lemma_div_pos_is_pos((av_int as int) * (irate as int), 1000000int);
            lemma_div_is_ordered(
                (av_int as int) * (irate as int),
                2000000000000000000000int,
                1000000int,
            );
        }
        av_int * (irate as i128) / scale_v
    } else {
        0
    };
    let end_v: i128 = av_int + interest;
    end_v as i64
}

/// Projects the account value from issue to maturity and returns the final
/// value, or `None` when some month's end value left
/// `[-MONEY_CAP, MONEY_CAP]`, the range the engine tracks.
pub fn project(rates: &RateTable, issue_age: u8, face_amount: i64, annual_premium: i64) -> (r:
    Option<i64>)
    requires
        rates.wf(),
        issue_age < 121,
        0 < face_amount <= MONEY_CAP,
        0 <= annual_premium <= MONEY_CAP,
    ensures
        (match r {
            Some(v) => projected_in_cap(
                *rates,
                issue_age as int,
                face_amount as int,
                annual_premium as int,
            ) && v as int == projected(
                *rates,
                issue_age as int,
                face_amount as int,
                annual_premium as int,
            ) && -MONEY_CAP <= v <= MONEY_CAP,
            None => !projected_in_cap(
                *rates,
                issue_age as int,
                face_amount as int,
                annual_premium as int,
            ),
        }),
{
    let months: u32 = 12 * (121 - issue_age as u32);
    let mut end: i64 = 0;
    let mut i: u32 = 0;
    while i < months
        invariant
            rates.wf(),
            issue_age < 121,
            0 < face_amount <= MONEY_CAP,
            0 <= annual_premium <= MONEY_CAP,
            months == projection_months(issue_age as int),
            i <= months,
            -MONEY_CAP <= end <= MONEY_CAP,
            end as int == value_after(*rates, face_amount as int, annual_premium as int, i as nat),
            in_cap_through(*rates, face_amount as int, annual_premium as int, i as nat),
        decreases months - i,
    {
        proof {
            lemma_fundamental_div_mod(i as int, 12);
        }
        let y: usize = (i / 12) as usize;
        let prem_month: i64 = if i % 12 == 0 {
            annual_premium
        } else {
            0
        };
        let next: i64 = month_value(rates, face_amount, prem_month, y, end);
        if next > MONEY_CAP || next < -MONEY_CAP {
            proof {
                if projected_in_cap(
                    *rates,
                    issue_age as int,
                    face_amount as int,
                    annual_premium as int,
                ) {
                    lemma_in_cap_prefix(
                        *rates,
                        face_amount as int,
                        annual_premium as int,
                        (i + 1) as nat,
                        months as nat,
                    );
                }
            }
            return None;
        }
        end = next;
        i = i + 1;
    }
    Some(end)
}

} // verus!
