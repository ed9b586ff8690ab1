//! Rate tables: seven named series of fixed-point rates, one entry per policy
//! duration (121 entries, duration 1 at index 0), assembled from scalar
//! assumptions and from already-parsed data rows.
use vstd::prelude::*;
use vstd::pervasive::VecAdditionalExecFns;

verus! {

/// Fixed-point scale: a rate or currency amount of 1.0 is `SCALE` ticks.
pub const SCALE: i64 = 1000000;

/// One cent in currency ticks.
pub const CENT: i64 = 10000;

/// Largest currency amount (ticks) the engine accepts or carries.
pub const MONEY_CAP: i64 = 1000000000000000;

/// Largest premium-load, discount or monthly-interest rate: 1.0.
pub const LOAD_CAP: i64 = 1000000;

/// Largest per-1000-of-face unit load: 1000.0.
pub const UNIT_CAP: i64 = 1000000000;

/// Largest corridor factor: 4.0.
pub const CORR_CAP: i64 = 4000000;

/// Largest annual cost-of-insurance rate per 1000 of exposure: 3000.0.
pub const COI_CAP: i64 = 3000000000;

/// Number of entries in every rate series: durations 1 through 121.
pub const SERIES_LEN: usize = 121;

/// A data row keyed by issue age and policy duration.
pub struct AgeDurationRow {
    pub issue_age: u8,
    pub policy_year: u8,
    pub rate: i64,
}

/// A data row keyed by gender, risk class, issue age and policy duration.
pub struct CohortRow {
    pub gender: String,
    pub risk_class: String,
    pub issue_age: u8,
    pub policy_year: u8,
    pub rate: i64,
}

/// A data row keyed by attained age.
pub struct AttainedAgeRow {
    pub attained_age: u8,
    pub rate: i64,
}

/// One rate series: exactly 121 fixed-point values indexed by duration - 1.
pub struct RateSeries {
    pub vals: Vec<i64>,
}

impl View for RateSeries {
    type V = Seq<int>;

    open spec fn view(&self) -> Seq<int> {
        self.vals@.map(|_i: int, v: i64| v as int)
    }
}

/// The series a constructed table holds when every entry is `value`.
pub open spec fn filled(value: int) -> Seq<int> {
    Seq::new(121, |_i: int| value)
}

/// The series obtained from `filled(dflt)` by writing, in row order, each
/// row whose issue age matches at index `policy_year - 1`.
pub open spec fn fill_age_duration(dflt: int, issue_age: int, rows: Seq<AgeDurationRow>) -> Seq<int>
    decreases rows.len(),
{
    if rows.len() == 0 {
        filled(dflt)
    } else {
        let prev = fill_age_duration(dflt, issue_age, rows.drop_last());
        let r = rows.last();
        if r.issue_age as int == issue_age {
            prev.update(r.policy_year as int - 1, r.rate as int)
        } else {
            prev
        }
    }
}

/// The series obtained from `filled(dflt)` by writing, in row order, each row
/// whose gender, risk class and issue age all match at index `policy_year - 1`.
pub open spec fn fill_cohort(
    dflt: int,
    gender: Seq<char>,
    risk_class: Seq<char>,
    issue_age: int,
    rows: Seq<CohortRow>,
) -> Seq<int>
    decreases rows.len(),
{
    if rows.len() == 0 {
        filled(dflt)
    } else {
        let prev = fill_cohort(dflt, gender, risk_class, issue_age, rows.drop_last());
        let r = rows.last();
        if r.gender@ == gender && r.risk_class@ == risk_class && r.issue_age as int == issue_age {
            prev.update(r.policy_year as int - 1, r.rate as int)
        } else {
            prev
        }
    }
}

/// The series obtained from `filled(dflt)` by writing, in row order, each row
/// whose attained age is at least the issue age at index `attained_age - issue_age`.
pub open spec fn fill_attained_age(dflt: int, issue_age: int, rows: Seq<AttainedAgeRow>) -> Seq<int>
    decreases rows.len(),
{
    if rows.len() == 0 {
        filled(dflt)
    } else {
        let prev = fill_attained_age(dflt, issue_age, rows.drop_last());
        let r = rows.last();
        if r.attained_age as int >= issue_age {
            prev.update(r.attained_age as int - issue_age, r.rate as int)
        } else {
            prev
        }
    }
}

/// Every entry of `s` lies in `[0, mx]` and `s` has the full 121 entries.
pub open spec fn in_range(s: Seq<int>, mx: int) -> bool {
    &&& s.len() == 121
    &&& forall|i: int| 0 <= i < 121 ==> 0 <= #[trigger] s[i] <= mx
}

impl RateSeries {
    /// A series with every entry equal to `value`.
    pub fn constant(value: i64) -> (r: RateSeries)
        ensures
            r@ == filled(value as int),
            r.vals@.len() == 121,
    {
        let mut vals: Vec<i64> = Vec::new();
        let mut i: usize = 0;
        while i < SERIES_LEN
            invariant
                i <= 121,
                vals@.len() == i,
                forall|j: int| 0 <= j < i ==> vals@[j] == value,
            decreases 121 - i,
        {
            vals.push(value);
            i = i + 1;
        }
        let r = RateSeries { vals };
        proof {
            assert(r@ =~= filled(value as int));
        }
        r
    }

    /// The entry at index `i` (duration `i + 1`).
    pub fn get(&self, i: usize) -> (r: i64)
        requires
            i < self@.len(),
        ensures
            r as int == self@[i as int],
    {
        self.vals[i]
    }

    /// The number of entries.
    pub fn len(&self) -> (r: usize)
        ensures
            r == self@.len(),
    {
        self.vals.len()
    }
}

/// A series built by matching issue age and placing rates by duration.
pub fn series_from_age_duration_rows(default: i64, issue_age: u8, rows: &Vec<AgeDurationRow>) -> (r:
    RateSeries)
    requires
        forall|i: int|
            0 <= i < rows@.len() ==> 1 <= #[trigger] rows@[i].policy_year <= 121,
    ensures
        r@ == fill_age_duration(default as int, issue_age as int, rows@),
{
    let mut s = RateSeries::constant(default);
    let mut k: usize = 0;
    proof {
        assert(rows@.take(0) =~= Seq::<AgeDurationRow>::empty());
    }
    while k < rows.len()
        invariant
            k <= rows@.len(),
            s.vals@.len() == 121,
            forall|i: int|
                0 <= i < rows@.len() ==> 1 <= #[trigger] rows@[i].policy_year <= 121,
            s@ == fill_age_duration(default as int, issue_age as int, rows@.take(k as int)),
        decreases rows@.len() - k,
    {
        let row = &rows[k];
        proof {
            assert(rows@.take(k + 1).drop_last() =~= rows@.take(k as int));
            assert(rows@.take(k + 1).last() == rows@[k as int]);
        }
        if row.issue_age == issue_age {
            let idx: usize = (row.policy_year - 1) as usize;
            s.vals.set(idx, row.rate);
            proof {
                assert(s@ =~= fill_age_duration(default as int, issue_age as int, rows@.take(
                    k + 1,
                )));
            }
        } else {
            proof {
                assert(s@ =~= fill_age_duration(default as int, issue_age as int, rows@.take(
                    k + 1,
                )));
            }
        }
        k = k + 1;
    }
    proof {
        assert(rows@.take(rows@.len() as int) =~= rows@);
    }
    s
}

/// A series built by matching gender, risk class and issue age.
pub fn series_from_cohort_rows(
    default: i64,
    gender: &String,
    risk_class: &String,
    issue_age: u8,
    rows: &Vec<CohortRow>,
) -> (r: RateSeries)
    requires
        forall|i: int|
            0 <= i < rows@.len() ==> 1 <= #[trigger] rows@[i].policy_year <= 121,
    ensures
        r@ == fill_cohort(default as int, gender@, risk_class@, issue_age as int, rows@),
{
    let mut s = RateSeries::constant(default);
    let mut k: usize = 0;
    proof {
        assert(rows@.take(0) =~= Seq::<CohortRow>::empty());
    }
    while k < rows.len()
        invariant
            k <= rows@.len(),
            s.vals@.len() == 121,
            forall|i: int|
                0 <= i < rows@.len() ==> 1 <= #[trigger] rows@[i].policy_year <= 121,
            s@ == fill_cohort(
                default as int,
                gender@,
                risk_class@,
                issue_age as int,
                rows@.take(k as int),
            ),
        decreases rows@.len() - k,
    {
        let row = &rows[k];
        proof {
            assert(rows@.take(k + 1).drop_last() =~= rows@.take(k as int));
            assert(rows@.take(k + 1).last() == rows@[k as int]);
        }
        let matches_cohort: bool = row.gender == *gender && row.risk_class == *risk_class
            && row.issue_age == issue_age;
        if matches_cohort {
            let idx: usize = (row.policy_year - 1) as usize;
            s.vals.set(idx, row.rate);
        }
        proof {
            assert(s@ =~= fill_cohort(
                default as int,
                gender@,
                risk_class@,
                issue_age as int,
                rows@.take(k + 1),
            ));
        }
        k = k + 1;
    }
    proof {
        assert(rows@.take(rows@.len() as int) =~= rows@);
    }
    s
}

/// A series built by matching attained ages at or above the issue age.
pub fn series_from_attained_age_rows(default: i64, issue_age: u8, rows: &Vec<AttainedAgeRow>) -> (r:
    RateSeries)
    requires
        forall|i: int|
            0 <= i < rows@.len() ==> #[trigger] rows@[i].attained_age as int <= issue_age as int
                + 120,
    ensures
        r@ == fill_attained_age(default as int, issue_age as int, rows@),
{
    let mut s = RateSeries::constant(default);
    let mut k: usize = 0;
    proof {
        assert(rows@.take(0) =~= Seq::<AttainedAgeRow>::empty());
    }
    while k < rows.len()
        invariant
            k <= rows@.len(),
            s.vals@.len() == 121,
            forall|i: int|
                0 <= i < rows@.len() ==> #[trigger] rows@[i].attained_age as int <= issue_age as int
                    + 120,
            s@ == fill_attained_age(default as int, issue_age as int, rows@.take(k as int)),
        decreases rows@.len() - k,
    {
        let row = &rows[k];
        proof {
            assert(rows@.take(k + 1).drop_last() =~= rows@.take(k as int));
            assert(rows@.take(k + 1).last() == rows@[k as int]);
        }
        if row.attained_age >= issue_age {
            let idx: usize = (row.attained_age - issue_age) as usize;
            s.vals.set(idx, row.rate);
        }
        proof {
            assert(s@ =~= fill_attained_age(default as int, issue_age as int, rows@.take(k + 1)));
        }
        k = k + 1;
    }
    proof {
        assert(rows@.take(rows@.len() as int) =~= rows@);
    }
    s
}

/// The bundle of all seven rate series a projection reads.
pub struct RateTable {
    pub premium_loads: RateSeries,
    pub policy_fees: RateSeries,
    pub unit_loads: RateSeries,
    pub corr_facts: RateSeries,
    pub naar_discs: RateSeries,
    pub coi_rates: RateSeries,
    pub interest_rates: RateSeries,
}

impl RateTable {
    /// Every series has 121 entries and every rate lies in its allowed range.
    pub open spec fn wf(self) -> bool {
        &&& in_range(self.premium_loads@, LOAD_CAP as int)
        &&& in_range(self.policy_fees@, MONEY_CAP as int)
        &&& in_range(self.unit_loads@, UNIT_CAP as int)
        &&& in_range(self.corr_facts@, CORR_CAP as int)
        &&& in_range(self.naar_discs@, LOAD_CAP as int)
        &&& in_range(self.coi_rates@, COI_CAP as int)
        &&& in_range(self.interest_rates@, LOAD_CAP as int)
    }
}

/// Writing one matching row keeps a series inside `[0, mx]`; by induction the
/// whole fill does, and it always has exactly 121 entries.
pub proof fn lemma_fill_age_duration_in_range(
    dflt: int,
    issue_age: int,
    rows: Seq<AgeDurationRow>,
    mx: int,
)
    requires
        0 <= dflt <= mx,
        forall|i: int|
            0 <= i < rows.len() ==> 1 <= #[trigger] rows[i].policy_year <= 121 && 0 <= rows[i].rate
                <= mx,
    ensures
        in_range(fill_age_duration(dflt, issue_age, rows), mx),
    decreases rows.len(),
{
    if rows.len() > 0 {
        lemma_fill_age_duration_in_range(dflt, issue_age, rows.drop_last(), mx);
    }
}

/// As `lemma_fill_age_duration_in_range`, for cohort-keyed rows.
pub proof fn lemma_fill_cohort_in_range(
    dflt: int,
    gender: Seq<char>,
    risk_class: Seq<char>,
    issue_age: int,
    rows: Seq<CohortRow>,
    mx: int,
)
    requires
        0 <= dflt <= mx,
        forall|i: int|
            0 <= i < rows.len() ==> 1 <= #[trigger] rows[i].policy_year <= 121 && 0 <= rows[i].rate
                <= mx,
    ensures
        in_range(fill_cohort(dflt, gender, risk_class, issue_age, rows), mx),
    decreases rows.len(),
{
    if rows.len() > 0 {
        lemma_fill_cohort_in_range(dflt, gender, risk_class, issue_age, rows.drop_last(), mx);
    }
}

/// As `lemma_fill_age_duration_in_range`, for attained-age-keyed rows.
pub proof fn lemma_fill_attained_age_in_range(
    dflt: int,
    issue_age: int,
    rows: Seq<AttainedAgeRow>,
    mx: int,
)
    requires
        0 <= dflt <= mx,
        0 <= issue_age,
        forall|i: int|
            0 <= i < rows.len() ==> #[trigger] rows[i].attained_age as int <= issue_age + 120 && 0
                <= rows[i].rate <= mx,
    ensures
        in_range(fill_attained_age(dflt, issue_age, rows), mx),
    decreases rows.len(),
{
    if rows.len() > 0 {
        lemma_fill_attained_age_in_range(dflt, issue_age, rows.drop_last(), mx);
    }
}

/// A cohort absent from every duration-keyed row leaves the whole series at
/// its default.
pub proof fn lemma_fill_age_duration_default(dflt: int, issue_age: int, rows: Seq<AgeDurationRow>)
    requires
        forall|i: int| 0 <= i < rows.len() ==> #[trigger] rows[i].issue_age as int != issue_age,
    ensures
        fill_age_duration(dflt, issue_age, rows) == filled(dflt),
    decreases rows.len(),
{
    if rows.len() > 0 {
        lemma_fill_age_duration_default(dflt, issue_age, rows.drop_last());
    }
}

/// A cohort absent from every cohort-keyed row leaves the whole series at its
/// default.
pub proof fn lemma_fill_cohort_default(
    dflt: int,
    gender: Seq<char>,
    risk_class: Seq<char>,
    issue_age: int,
    rows: Seq<CohortRow>,
)
    requires
        forall|i: int|
            0 <= i < rows.len() ==> !(#[trigger] rows[i].gender@ == gender && rows[i].risk_class@
                == risk_class && rows[i].issue_age as int == issue_age),
    ensures
        fill_cohort(dflt, gender, risk_class, issue_age, rows) == filled(dflt),
    decreases rows.len(),
{
    if rows.len() > 0 {
        lemma_fill_cohort_default(dflt, gender, risk_class, issue_age, rows.drop_last());
    }
}

/// Rows whose attained age all precede the issue age leave the whole series at
/// its default.
pub proof fn lemma_fill_attained_age_default(dflt: int, issue_age: int, rows: Seq<AttainedAgeRow>)
    requires
        forall|i: int| 0 <= i < rows.len() ==> (#[trigger] rows[i].attained_age as int) < issue_age,
    ensures
        fill_attained_age(dflt, issue_age, rows) == filled(dflt),
    decreases rows.len(),
{
    if rows.len() > 0 {
        lemma_fill_attained_age_default(dflt, issue_age, rows.drop_last());
    }
}

/// Assembles the table for one (gender, risk class, issue age) cohort:
/// premium loads, policy fees, the net-amount-at-risk discount and the monthly
/// interest rate are scalar assumptions broadcast across all durations; unit
/// loads, corridor factors and cost-of-insurance rates are selected from the
/// given data rows, with unmatched durations left at 0.0, 1.0 and 0.0.
pub fn build_rate_table(
    gender: &String,
    risk_class: &String,
    issue_age: u8,
    premium_load_rate: i64,
    policy_fee: i64,
    naar_disc: i64,
    interest_rate: i64,
    unit_load_rows: &Vec<AgeDurationRow>,
    corridor_rows: &Vec<AttainedAgeRow>,
    coi_rows: &Vec<CohortRow>,
) -> (r: RateTable)
    requires
        0 <= premium_load_rate <= LOAD_CAP,
        0 <= policy_fee <= MONEY_CAP,
        0 <= naar_disc <= LOAD_CAP,
        0 <= interest_rate <= LOAD_CAP,
        forall|i: int|
            0 <= i < unit_load_rows@.len() ==> 1 <= #[trigger] unit_load_rows@[i].policy_year <= 121
                && 0 <= unit_load_rows@[i].rate <= UNIT_CAP,
        forall|i: int|
            0 <= i < corridor_rows@.len() ==> #[trigger] corridor_rows@[i].attained_age as int
                <= issue_age as int + 120 && 0 <= corridor_rows@[i].rate <= CORR_CAP,
        forall|i: int|
            0 <= i < coi_rows@.len() ==> 1 <= #[trigger] coi_rows@[i].policy_year <= 121 && 0
                <= coi_rows@[i].rate <= COI_CAP,
    ensures
        r.wf(),
        r.premium_loads@ == filled(premium_load_rate as int),
        r.policy_fees@ == filled(policy_fee as int),
        r.naar_discs@ == filled(naar_disc as int),
        r.interest_rates@ == filled(interest_rate as int),
        r.unit_loads@ == fill_age_duration(0, issue_age as int, unit_load_rows@),
        r.corr_facts@ == fill_attained_age(SCALE as int, issue_age as int, corridor_rows@),
        r.coi_rates@ == fill_cohort(0, gender@, risk_class@, issue_age as int, coi_rows@),
{
    let r = RateTable {
        premium_loads: RateSeries::constant(premium_load_rate),
        policy_fees: RateSeries::constant(policy_fee),
        unit_loads: series_from_age_duration_rows(0, issue_age, unit_load_rows),
        corr_facts: series_from_attained_age_rows(SCALE, issue_age, corridor_rows),
        naar_discs: RateSeries::constant(naar_disc),
        coi_rates: series_from_cohort_rows(0, gender, risk_class, issue_age, coi_rows),
        interest_rates: RateSeries::constant(interest_rate),
    };
    proof {
        lemma_fill_age_duration_in_range(0, issue_age as int, unit_load_rows@, UNIT_CAP as int);
        lemma_fill_attained_age_in_range(
            SCALE as int,
            issue_age as int,
            corridor_rows@,
            CORR_CAP as int,
        );
        lemma_fill_cohort_in_range(
            0,
            gender@,
            risk_class@,
            issue_age as int,
            coi_rows@,
            COI_CAP as int,
        );
    }
    r
}

} // verus!
