//! The premium solver: bracket the smallest solvent annual premium by
//! doubling an upper guess, close in by bisection to within half a cent,
//! round to the nearest cent, and add one cent if rounding down lost
//! solvency.
use vstd::prelude::*;
use vstd::arithmetic::div_mod::lemma_div_pos_is_pos;
use vstd::arithmetic::div_mod::lemma_fundamental_div_mod;
use vstd::arithmetic::div_mod::lemma_mod_division_less_than_divisor;
use crate::table::RateTable;
use crate::table::MONEY_CAP;
use crate::table::CENT;
use crate::engine::project;
use crate::engine::projected;
use crate::engine::projected_in_cap;
use crate::laws::lemma_projected_monotone;
use crate::laws::lemma_projected_zero_nonpos;

verus! {

/// Half of one cent in currency ticks: the bisection stops when the bracket
/// is this narrow.
pub const HALF_CENT: i64 = 5000;

/// The solver stops doubling its upper guess past this premium and reports
/// failure instead.
pub const BRACKET_LIMIT: i64 = 400000000000000;

/// Finds the least annual premium, in whole cents, whose projection ends
/// solvent. On `Some(p)`: `p` is a positive whole-cent amount, the projection
/// at `p` ends strictly positive, and at one cent less it ends at or below
/// zero — `p` is the minimal sufficient cent amount. `None` means a guess
/// left the range the engine tracks before a bracket was found.
///
/// When the initial guess of one percent of the face amount is already
/// solvent, no doubling happens and the result stays within two cents of it.
pub fn solve_premium(rates: &RateTable, issue_age: u8, face_amount: i64) -> (r: Option<i64>)
    requires
        rates.wf(),
        issue_age < 121,
        1000000 <= face_amount <= MONEY_CAP,
    ensures
        (match r {
            Some(p) => {
                &&& CENT <= p < MONEY_CAP
                &&& p as int % (CENT as int) == 0
                &&& projected(*rates, issue_age as int, face_amount as int, p as int) > 0
                &&& projected(
                    *rates,
                    issue_age as int,
                    face_amount as int,
                    p as int - CENT as int,
                ) <= 0
                &&& (projected(
                    *rates,
                    issue_age as int,
                    face_amount as int,
                    face_amount as int / 100,
                ) > 0 ==> p as int <= face_amount as int / 100 + 2 * CENT as int)
            },
            None => true,
        }),
        (forall|q: int|
            0 <= q <= MONEY_CAP ==> projected_in_cap(*rates, issue_age as int, face_amount as int, q))
            && (exists|q: int|
            0 <= q <= BRACKET_LIMIT && projected(*rates, issue_age as int, face_amount as int, q)
                > 0) ==> r is Some,
{
    let ghost rt = *rates;
    let ghost ia = issue_age as int;
    let ghost fa = face_amount as int;

    let mut lo: i64 = 0;
    let mut hi: i64 = face_amount / 100;
    let mut md: i64 = 0;
    let ghost hi0 = fa / 100;

    proof {
        lemma_projected_zero_nonpos(rt, ia, fa);
    }

    let mut fhi: i64 = match project(rates, issue_age, face_amount, hi) {
        Some(v) => v,
        None => { return None; },
    };

    while fhi <= 0
        invariant
            rates.wf(),
            rt == *rates,
            ia == issue_age as int,
            fa == face_amount as int,
            hi0 == fa / 100,
            issue_age < 121,
            1000000 <= face_amount <= MONEY_CAP,
            10000 <= hi <= 800000000000000,
            0 <= lo < hi,
            lo == 0 || (hi as int == 2 * lo as int && lo >= 10000),
            projected(rt, ia, fa, lo as int) <= 0,
            fhi as int == projected(rt, ia, fa, hi as int),
            projected(rt, ia, fa, hi0) > 0 ==> hi as int == hi0,
        decreases MONEY_CAP - hi,
    {
        proof {
            if projected(rt, ia, fa, hi0) > 0 {
                assert(hi as int == hi0);
                assert(false);
            }
        }
        lo = hi;
        if hi > BRACKET_LIMIT {
            proof {
                if exists|q: int|
                    0 <= q <= BRACKET_LIMIT && projected(rt, ia, fa, q) > 0 {
                    let qs = choose|q: int|
                        0 <= q <= BRACKET_LIMIT && projected(rt, ia, fa, q) > 0;
                    lemma_projected_monotone(rt, ia, fa, qs, hi as int);
                    assert(false);
                }
            }
            return None;
        }
        hi = hi * 2;
        fhi = match project(rates, issue_age, face_amount, hi) {
            Some(v) => v,
            None => { return None; },
        };
    }

    while hi - lo > HALF_CENT
        invariant
            rates.wf(),
            rt == *rates,
            ia == issue_age as int,
            fa == face_amount as int,
            hi0 == fa / 100,
            issue_age < 121,
            1000000 <= face_amount <= MONEY_CAP,
            0 <= lo < hi <= 800000000000000,
            0 <= md,
            (lo <= md <= hi) || (md == 0 && hi - lo > HALF_CENT),
            projected(rt, ia, fa, lo as int) <= 0,
            projected(rt, ia, fa, hi as int) > 0,
            projected(rt, ia, fa, hi0) > 0 ==> hi as int <= hi0,
        decreases hi - lo,
    {
        proof {
            lemma_fundamental_div_mod(lo as int + hi as int, 2);
            lemma_mod_division_less_than_divisor(lo as int + hi as int, 2);
        }
        md = (lo + hi) / 2;
        let fmd: i64 = match project(rates, issue_age, face_amount, md) {
            Some(v) => v,
            None => { return None; },
        };
        if fmd <= 0 {
            lo = md;
        } else {
            hi = md;
        }
    }

    proof {
        lemma_fundamental_div_mod(md as int + HALF_CENT as int, CENT as int);
        lemma_mod_division_less_than_divisor(md as int + HALF_CENT as int, CENT as int);
        lemma_div_pos_is_pos(md as int + HALF_CENT as int, CENT as int);
    }
    let q: i64 = (md + HALF_CENT) / CENT;
    let rounded: i64 = q * CENT;
    proof {
        assert(rounded as int == (md as int + HALF_CENT as int) - (md as int + HALF_CENT as int)
            % (CENT as int));
        assert(lo as int - 4999 <= rounded as int <= lo as int + CENT as int);
    }

    let fr: i64 = match project(rates, issue_age, face_amount, rounded) {
        Some(v) => v,
        None => { return None; },
    };
    if fr <= 0 {
        let result: i64 = rounded + CENT;
        proof {
            lemma_projected_monotone(rt, ia, fa, hi as int, result as int);
        }
        Some(result)
    } else {
        proof {
            if rounded == 0 {
                lemma_projected_zero_nonpos(rt, ia, fa);
                assert(false);
            }
            lemma_projected_monotone(rt, ia, fa, rounded as int - CENT as int, lo as int);
        }
        Some(rounded)
    }
}

} // verus!
